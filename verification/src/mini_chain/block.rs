//! Transactions and their payloads, with the abstract values that the
//! contracts speak of.
use vstd::prelude::*;
use rand::rngs::StdRng;
use crate::text::{decimal, push_char, push_decimal};
use super::canonical::{push_transaction_payload_text, push_transaction_text, transaction_payload_text, transaction_text};
use super::clock::now_secs;
use super::digest::{hash_text, text_hash};
use super::random::{random_bytes, random_in_range, random_u128, random_u16, random_u32, random_u64, random_u8};
use super::txset::{TransactionSet, is_strictly_sorted, lemma_sorted_unique};

verus! {

/// An account address: raw bytes.
#[derive(Debug, PartialEq, Eq, PartialOrd, Ord, Hash)]
pub struct Address(pub Vec<u8>);

/// The signer of a call, named by its address.
#[derive(Debug, PartialEq, Eq, PartialOrd, Ord, Hash)]
pub struct Signer(pub Address);

/// A signature: raw bytes.
#[derive(Debug, PartialEq, Eq, PartialOrd, Ord, Hash)]
pub struct Signature(pub Vec<u8>);

/// The label of the called function: raw bytes.
#[derive(Debug, PartialEq, Eq, PartialOrd, Ord, Hash)]
pub struct Label(pub Vec<u8>);

/// A call argument.
#[derive(Debug, PartialEq, Eq, PartialOrd, Ord, Hash)]
pub enum Argument {
    U8(u8),
    U16(u16),
    U32(u32),
    U64(u64),
    U128(u128),
    Address(Address),
    Signer(Signer),
    Vector(Vec<Argument>),
    Struct(Vec<Argument>),
}

/// A type argument of a call.
#[derive(Debug, PartialEq, Eq, PartialOrd, Ord, Hash)]
pub enum TypeArgument {
    U8,
    U16,
    U32,
    U64,
    U128,
    Address,
    Signer,
    Vector(Box<TypeArgument>),
    Struct(Vec<TypeArgument>),
}

/// The abstract value of an [`Argument`].
pub enum ArgumentModel {
    U8(u8),
    U16(u16),
    U32(u32),
    U64(u64),
    U128(u128),
    Address(Seq<u8>),
    Signer(Seq<u8>),
    Vector(Seq<ArgumentModel>),
    Struct(Seq<ArgumentModel>),
}

/// The abstract value of a [`TypeArgument`].
pub enum TypeArgumentModel {
    U8,
    U16,
    U32,
    U64,
    U128,
    Address,
    Signer,
    Vector(Box<TypeArgumentModel>),
    Struct(Seq<TypeArgumentModel>),
}

pub open spec fn arg_model(a: Argument) -> ArgumentModel
    decreases a,
{
    match a {
        Argument::U8(x) => ArgumentModel::U8(x),
        Argument::U16(x) => ArgumentModel::U16(x),
        Argument::U32(x) => ArgumentModel::U32(x),
        Argument::U64(x) => ArgumentModel::U64(x),
        Argument::U128(x) => ArgumentModel::U128(x),
        Argument::Address(x) => ArgumentModel::Address(x.0@),
        Argument::Signer(x) => ArgumentModel::Signer(x.0.0@),
        Argument::Vector(v) => ArgumentModel::Vector(args_model(v@)),
        Argument::Struct(v) => ArgumentModel::Struct(args_model(v@)),
    }
}

pub open spec fn args_model(s: Seq<Argument>) -> Seq<ArgumentModel>
    decreases s,
{
    Seq::new(
        s.len(),
        |i: int|
            if 0 <= i < s.len() {
                arg_model(s[i])
            } else {
                ArgumentModel::U8(0)
            },
    )
}

pub open spec fn targ_model(t: TypeArgument) -> TypeArgumentModel
    decreases t,
{
    match t {
        TypeArgument::U8 => TypeArgumentModel::U8,
        TypeArgument::U16 => TypeArgumentModel::U16,
        TypeArgument::U32 => TypeArgumentModel::U32,
        TypeArgument::U64 => TypeArgumentModel::U64,
        TypeArgument::U128 => TypeArgumentModel::U128,
        TypeArgument::Address => TypeArgumentModel::Address,
        TypeArgument::Signer => TypeArgumentModel::Signer,
        TypeArgument::Vector(b) => TypeArgumentModel::Vector(Box::new(targ_model(*b))),
        TypeArgument::Struct(v) => TypeArgumentModel::Struct(targs_model(v@)),
    }
}

pub open spec fn targs_model(s: Seq<TypeArgument>) -> Seq<TypeArgumentModel>
    decreases s,
{
    Seq::new(
        s.len(),
        |i: int|
            if 0 <= i < s.len() {
                targ_model(s[i])
            } else {
                TypeArgumentModel::U8
            },
    )
}

impl View for Address {
    type V = Seq<u8>;

    open spec fn view(&self) -> Seq<u8> {
        self.0@
    }
}

impl View for Signer {
    type V = Seq<u8>;

    open spec fn view(&self) -> Seq<u8> {
        self.0.0@
    }
}

impl View for Signature {
    type V = Seq<u8>;

    open spec fn view(&self) -> Seq<u8> {
        self.0@
    }
}

impl View for Label {
    type V = Seq<u8>;

    open spec fn view(&self) -> Seq<u8> {
        self.0@
    }
}

impl View for Argument {
    type V = ArgumentModel;

    open spec fn view(&self) -> ArgumentModel {
        arg_model(*self)
    }
}

impl View for TypeArgument {
    type V = TypeArgumentModel;

    open spec fn view(&self) -> TypeArgumentModel {
        targ_model(*self)
    }
}

fn clone_bytes(v: &Vec<u8>) -> (r: Vec<u8>)
    ensures
        r@ == v@,
{
    let r: Vec<u8> = v.clone();
    assert(r@ =~= v@);
    r
}

impl Clone for Address {
    fn clone(&self) -> (r: Self)
        ensures
            r@ == self@,
    {
        Address(clone_bytes(&self.0))
    }
}

impl Clone for Signer {
    fn clone(&self) -> (r: Self)
        ensures
            r@ == self@,
    {
        Signer(self.0.clone())
    }
}

impl Clone for Signature {
    fn clone(&self) -> (r: Self)
        ensures
            r@ == self@,
    {
        Signature(clone_bytes(&self.0))
    }
}

impl Clone for Label {
    fn clone(&self) -> (r: Self)
        ensures
            r@ == self@,
    {
        Label(clone_bytes(&self.0))
    }
}

fn clone_args(v: &Vec<Argument>) -> (r: Vec<Argument>)
    ensures
        args_model(r@) == args_model(v@),
    decreases v,
{
    let mut r: Vec<Argument> = Vec::new();
    let n: usize = v.len();
    let mut i: usize = 0;
    while i < n
        invariant
            n == v@.len(),
            i <= n,
            r@.len() == i,
            forall|j: int| 0 <= j < i ==> arg_model(#[trigger] r@[j]) == arg_model(v@[j]),
        decreases n - i,
    {
        let a: Argument = clone_argument(&v[i]);
        r.push(a);
        i = i + 1;
    }
    assert(args_model(r@) =~= args_model(v@));
    r
}

fn clone_argument(a: &Argument) -> (r: Argument)
    ensures
        arg_model(r) == arg_model(*a),
    decreases a,
{
    match a {
        Argument::U8(x) => Argument::U8(*x),
        Argument::U16(x) => Argument::U16(*x),
        Argument::U32(x) => Argument::U32(*x),
        Argument::U64(x) => Argument::U64(*x),
        Argument::U128(x) => Argument::U128(*x),
        Argument::Address(x) => Argument::Address(x.clone()),
        Argument::Signer(x) => Argument::Signer(x.clone()),
        Argument::Vector(v) => Argument::Vector(clone_args(v)),
        Argument::Struct(v) => Argument::Struct(clone_args(v)),
    }
}

impl Clone for Argument {
    fn clone(&self) -> (r: Self)
        ensures
            r@ == self@,
    {
        clone_argument(self)
    }
}

fn clone_targs(v: &Vec<TypeArgument>) -> (r: Vec<TypeArgument>)
    ensures
        targs_model(r@) == targs_model(v@),
    decreases v,
{
    let mut r: Vec<TypeArgument> = Vec::new();
    let n: usize = v.len();
    let mut i: usize = 0;
    while i < n
        invariant
            n == v@.len(),
            i <= n,
            r@.len() == i,
            forall|j: int| 0 <= j < i ==> targ_model(#[trigger] r@[j]) == targ_model(v@[j]),
        decreases n - i,
    {
        let t: TypeArgument = clone_type_argument(&v[i]);
        r.push(t);
        i = i + 1;
    }
    assert(targs_model(r@) =~= targs_model(v@));
    r
}

fn clone_type_argument(t: &TypeArgument) -> (r: TypeArgument)
    ensures
        targ_model(r) == targ_model(*t),
    decreases t,
{
    match t {
        TypeArgument::U8 => TypeArgument::U8,
        TypeArgument::U16 => TypeArgument::U16,
        TypeArgument::U32 => TypeArgument::U32,
        TypeArgument::U64 => TypeArgument::U64,
        TypeArgument::U128 => TypeArgument::U128,
        TypeArgument::Address => TypeArgument::Address,
        TypeArgument::Signer => TypeArgument::Signer,
        TypeArgument::Vector(b) => {
            let inner: TypeArgument = clone_type_argument(b);
            TypeArgument::Vector(Box::new(inner))
        },
        TypeArgument::Struct(v) => TypeArgument::Struct(clone_targs(v)),
    }
}

impl Clone for TypeArgument {
    fn clone(&self) -> (r: Self)
        ensures
            r@ == self@,
    {
        clone_type_argument(self)
    }
}

/// A call of `label` at `address` with its arguments.
#[derive(Debug, PartialEq, Eq, PartialOrd, Ord, Hash)]
pub struct ExecutionPayload {
    pub address: Address,
    pub label: Label,
    pub arguments: Vec<Argument>,
    pub type_arguments: Vec<TypeArgument>,
}

/// What a transaction asks the chain to do.
#[derive(Debug, PartialEq, Eq, PartialOrd, Ord, Hash)]
pub enum TransactionPayload {
    ExecutionPayload(ExecutionPayload),
}

/// A signed request to run a payload.
#[derive(Debug, PartialEq, Eq, PartialOrd, Ord, Hash)]
pub struct Transaction {
    pub timestamp: u64,
    pub nonce: u64,
    pub payload: TransactionPayload,
    pub signers: Vec<Vec<Address>>,
    pub signatures: Vec<Vec<Signature>>,
}

/// The abstract value of an [`ExecutionPayload`] (and of the one variant of
/// [`TransactionPayload`]).
pub struct PayloadModel {
    pub address: Seq<u8>,
    pub label: Seq<u8>,
    pub arguments: Seq<ArgumentModel>,
    pub type_arguments: Seq<TypeArgumentModel>,
}

/// The abstract value of a [`Transaction`].
pub struct TransactionModel {
    pub timestamp: u64,
    pub nonce: u64,
    pub payload: PayloadModel,
    pub signers: Seq<Seq<Seq<u8>>>,
    pub signatures: Seq<Seq<Seq<u8>>>,
}

/// The byte strings of a list of addresses.
pub open spec fn addresses_model(s: Seq<Address>) -> Seq<Seq<u8>> {
    Seq::new(s.len(), |i: int| s[i]@)
}

/// The byte strings of a list of signatures.
pub open spec fn signatures_model(s: Seq<Signature>) -> Seq<Seq<u8>> {
    Seq::new(s.len(), |i: int| s[i]@)
}

/// The byte strings of groups of addresses.
pub open spec fn address_groups_model(s: Seq<Vec<Address>>) -> Seq<Seq<Seq<u8>>> {
    Seq::new(s.len(), |i: int| addresses_model(s[i]@))
}

/// The byte strings of groups of signatures.
pub open spec fn signature_groups_model(s: Seq<Vec<Signature>>) -> Seq<Seq<Seq<u8>>> {
    Seq::new(s.len(), |i: int| signatures_model(s[i]@))
}

impl View for ExecutionPayload {
    type V = PayloadModel;

    open spec fn view(&self) -> PayloadModel {
        PayloadModel {
            address: self.address@,
            label: self.label@,
            arguments: args_model(self.arguments@),
            type_arguments: targs_model(self.type_arguments@),
        }
    }
}

impl View for TransactionPayload {
    type V = PayloadModel;

    open spec fn view(&self) -> PayloadModel {
        match self {
            TransactionPayload::ExecutionPayload(p) => p@,
        }
    }
}

impl View for Transaction {
    type V = TransactionModel;

    open spec fn view(&self) -> TransactionModel {
        TransactionModel {
            timestamp: self.timestamp,
            nonce: self.nonce,
            payload: self.payload@,
            signers: address_groups_model(self.signers@),
            signatures: signature_groups_model(self.signatures@),
        }
    }
}

impl Clone for ExecutionPayload {
    fn clone(&self) -> (r: Self)
        ensures
            r@ == self@,
    {
        ExecutionPayload {
            address: self.address.clone(),
            label: self.label.clone(),
            arguments: clone_args(&self.arguments),
            type_arguments: clone_targs(&self.type_arguments),
        }
    }
}

impl Clone for TransactionPayload {
    fn clone(&self) -> (r: Self)
        ensures
            r@ == self@,
    {
        match self {
            TransactionPayload::ExecutionPayload(p) => TransactionPayload::ExecutionPayload(p.clone()),
        }
    }
}

fn clone_address_groups(v: &Vec<Vec<Address>>) -> (r: Vec<Vec<Address>>)
    ensures
        address_groups_model(r@) == address_groups_model(v@),
{
    let mut r: Vec<Vec<Address>> = Vec::new();
    let n: usize = v.len();
    let mut i: usize = 0;
    while i < n
        invariant
            n == v@.len(),
            i <= n,
            r@.len() == i,
            forall|j: int| 0 <= j < i ==> addresses_model(#[trigger] r@[j]@) == addresses_model(v@[j]@),
        decreases n - i,
    {
        let g: Vec<Address> = v[i].clone();
        assert(addresses_model(g@) =~= addresses_model(v@[i as int]@));
        r.push(g);
        i = i + 1;
    }
    assert(address_groups_model(r@) =~= address_groups_model(v@));
    r
}

fn clone_signature_groups(v: &Vec<Vec<Signature>>) -> (r: Vec<Vec<Signature>>)
    ensures
        signature_groups_model(r@) == signature_groups_model(v@),
{
    let mut r: Vec<Vec<Signature>> = Vec::new();
    let n: usize = v.len();
    let mut i: usize = 0;
    while i < n
        invariant
            n == v@.len(),
            i <= n,
            r@.len() == i,
            forall|j: int| 0 <= j < i ==> signatures_model(#[trigger] r@[j]@) == signatures_model(v@[j]@),
        decreases n - i,
    {
        let g: Vec<Signature> = v[i].clone();
        assert(signatures_model(g@) =~= signatures_model(v@[i as int]@));
        r.push(g);
        i = i + 1;
    }
    assert(signature_groups_model(r@) =~= signature_groups_model(v@));
    r
}

impl Clone for Transaction {
    fn clone(&self) -> (r: Self)
        ensures
            r@ == self@,
    {
        Transaction {
            timestamp: self.timestamp,
            nonce: self.nonce,
            payload: self.payload.clone(),
            signers: clone_address_groups(&self.signers),
            signatures: clone_signature_groups(&self.signatures),
        }
    }
}

impl Transaction {
    /// A transaction made of the given parts.
    pub fn new(
        timestamp: u64,
        nonce: u64,
        payload: TransactionPayload,
        signers: Vec<Vec<Address>>,
        signatures: Vec<Vec<Signature>>,
    ) -> (r: Self)
        ensures
            r@ == (TransactionModel {
                timestamp,
                nonce,
                payload: payload@,
                signers: address_groups_model(signers@),
                signatures: signature_groups_model(signatures@),
            }),
    {
        Transaction { timestamp, nonce, payload, signers, signatures }
    }
}

/// The text whose hash is the hash of a transaction: timestamp, nonce and
/// payload text, run together.
pub open spec fn transaction_hash_text(t: TransactionModel) -> Seq<char> {
    decimal(t.timestamp as nat) + decimal(t.nonce as nat) + transaction_payload_text(t.payload)
}

/// The hash of a transaction.
pub open spec fn transaction_hash(t: TransactionModel) -> Seq<char> {
    text_hash(transaction_hash_text(t))
}

/// A text with a space put in front of every eighth character, starting
/// with the first.
pub open spec fn spaced(s: Seq<char>) -> Seq<char>
    decreases s.len(),
{
    if s.len() == 0 {
        Seq::empty()
    } else {
        spaced(s.drop_last()) + (if (s.len() - 1) % 8 == 0 {
            seq![' ']
        } else {
            Seq::empty()
        }) + seq![s.last()]
    }
}

/// The shape of an argument drawn at random with nesting budget `depth`:
/// addresses of 32 bytes, and lists of one to seven elements only while
/// the budget lasts.
pub open spec fn arg_shape(a: ArgumentModel, depth: nat) -> bool
    decreases a,
{
    match a {
        ArgumentModel::Address(x) => x.len() == 32,
        ArgumentModel::Signer(x) => x.len() == 32,
        ArgumentModel::Vector(v) => depth > 0 && 1 <= v.len() < 8 && forall|i: int|
            0 <= i < v.len() ==> arg_shape(#[trigger] v[i], (depth - 1) as nat),
        ArgumentModel::Struct(v) => depth > 0 && 1 <= v.len() < 8 && forall|i: int|
            0 <= i < v.len() ==> arg_shape(#[trigger] v[i], (depth - 1) as nat),
        _ => true,
    }
}

/// The shape of a type argument drawn at random with nesting budget
/// `depth`.
pub open spec fn targ_shape(t: TypeArgumentModel, depth: nat) -> bool
    decreases t,
{
    match t {
        TypeArgumentModel::Vector(b) => depth > 0 && targ_shape(*b, (depth - 1) as nat),
        TypeArgumentModel::Struct(v) => depth > 0 && 1 <= v.len() < 8 && forall|i: int|
            0 <= i < v.len() ==> targ_shape(#[trigger] v[i], (depth - 1) as nat),
        _ => true,
    }
}

/// The shape of a transaction drawn at random: a 32-byte address, a label
/// of one to 31 bytes, one argument and one type argument of nesting budget
/// eight, and one signer with one signature of 32 bytes each.
pub open spec fn transaction_shape(t: TransactionModel) -> bool {
    &&& t.payload.address.len() == 32
    &&& 1 <= t.payload.label.len() < 32
    &&& t.payload.arguments.len() == 1
    &&& arg_shape(t.payload.arguments[0], 8)
    &&& t.payload.type_arguments.len() == 1
    &&& targ_shape(t.payload.type_arguments[0], 8)
    &&& t.signers.len() == 1
    &&& t.signers[0].len() == 1
    &&& t.signers[0][0].len() == 32
    &&& t.signatures.len() == 1
    &&& t.signatures[0].len() == 1
    &&& t.signatures[0][0].len() == 32
}

impl Address {
    /// An address of 32 random bytes.
    pub fn random(rng: &mut StdRng) -> (r: Self)
        ensures
            r@.len() == 32,
    {
        Address(random_bytes(rng, 32))
    }
}

impl Signature {
    /// A signature of 32 random bytes.
    pub fn random(rng: &mut StdRng) -> (r: Self)
        ensures
            r@.len() == 32,
    {
        Signature(random_bytes(rng, 32))
    }
}

impl Label {
    /// A label of one to 31 random bytes.
    fn random(rng: &mut StdRng) -> (r: Self)
        ensures
            1 <= r@.len() < 32,
    {
        let len: u64 = random_in_range(rng, 1, 32);
        Label(random_bytes(rng, len as usize))
    }
}

fn random_args(rng: &mut StdRng, depth: u64) -> (r: Vec<Argument>)
    requires
        depth > 0,
    ensures
        1 <= r@.len() < 8,
        forall|i: int| 0 <= i < r@.len() ==> arg_shape(#[trigger] args_model(r@)[i], (depth - 1) as nat),
    decreases depth, 0nat,
{
    let len: u64 = random_in_range(rng, 1, 8);
    let mut v: Vec<Argument> = Vec::new();
    let mut i: u64 = 0;
    while i < len
        invariant
            depth > 0,
            len < 8,
            i <= len,
            v@.len() == i,
            forall|j: int| 0 <= j < i ==> arg_shape(#[trigger] v@[j]@, (depth - 1) as nat),
        decreases len - i,
    {
        v.push(Argument::random(rng, depth - 1));
        i = i + 1;
    }
    assert forall|j: int| 0 <= j < v@.len() implies arg_shape(#[trigger] args_model(v@)[j], (depth - 1) as nat) by {
        assert(args_model(v@)[j] == v@[j]@);
    }
    v
}

impl Argument {
    /// A random argument; lists are drawn only while `depth` is positive,
    /// and their elements with one less.
    pub fn random(rng: &mut StdRng, depth: u64) -> (r: Self)
        ensures
            arg_shape(r@, depth as nat),
        decreases depth, 1nat,
    {
        let partition: u64 = if depth > 0 {
            9
        } else {
            7
        };
        let choice: u64 = random_in_range(rng, 0, partition);
        if choice == 0 {
            Argument::U8(random_u8(rng))
        } else if choice == 1 {
            Argument::U16(random_u16(rng))
        } else if choice == 2 {
            Argument::U32(random_u32(rng))
        } else if choice == 3 {
            Argument::U64(random_u64(rng))
        } else if choice == 4 {
            Argument::U128(random_u128(rng))
        } else if choice == 5 {
            Argument::Address(Address::random(rng))
        } else if choice == 6 {
            Argument::Signer(Signer(Address::random(rng)))
        } else if choice == 7 {
            let v: Vec<Argument> = random_args(rng, depth);
            let r: Argument = Argument::Vector(v);
            assert(r@ == ArgumentModel::Vector(args_model(v@)));
            r
        } else {
            let v: Vec<Argument> = random_args(rng, depth);
            let r: Argument = Argument::Struct(v);
            assert(r@ == ArgumentModel::Struct(args_model(v@)));
            r
        }
    }
}

fn random_targs(rng: &mut StdRng, depth: u64) -> (r: Vec<TypeArgument>)
    requires
        depth > 0,
    ensures
        1 <= r@.len() < 8,
        forall|i: int| 0 <= i < r@.len() ==> targ_shape(#[trigger] targs_model(r@)[i], (depth - 1) as nat),
    decreases depth, 0nat,
{
    let len: u64 = random_in_range(rng, 1, 8);
    let mut v: Vec<TypeArgument> = Vec::new();
    let mut i: u64 = 0;
    while i < len
        invariant
            depth > 0,
            len < 8,
            i <= len,
            v@.len() == i,
            forall|j: int| 0 <= j < i ==> targ_shape(#[trigger] v@[j]@, (depth - 1) as nat),
        decreases len - i,
    {
        v.push(TypeArgument::random(rng, depth - 1));
        i = i + 1;
    }
    assert forall|j: int| 0 <= j < v@.len() implies targ_shape(#[trigger] targs_model(v@)[j], (depth - 1) as nat) by {
        assert(targs_model(v@)[j] == v@[j]@);
    }
    v
}

impl TypeArgument {
    /// A random type argument; nested ones are drawn only while `depth` is
    /// positive, with one less.
    pub fn random(rng: &mut StdRng, depth: u64) -> (r: Self)
        ensures
            targ_shape(r@, depth as nat),
        decreases depth, 1nat,
    {
        let partition: u64 = if depth > 0 {
            9
        } else {
            7
        };
        let choice: u64 = random_in_range(rng, 0, partition);
        if choice == 0 {
            TypeArgument::U8
        } else if choice == 1 {
            TypeArgument::U16
        } else if choice == 2 {
            TypeArgument::U32
        } else if choice == 3 {
            TypeArgument::U64
        } else if choice == 4 {
            TypeArgument::U128
        } else if choice == 5 {
            TypeArgument::Address
        } else if choice == 6 {
            TypeArgument::Signer
        } else if choice == 7 {
            let inner: TypeArgument = TypeArgument::random(rng, depth - 1);
            let r: TypeArgument = TypeArgument::Vector(Box::new(inner));
            assert(r@ == TypeArgumentModel::Vector(Box::new(inner@)));
            r
        } else {
            let v: Vec<TypeArgument> = random_targs(rng, depth);
            let r: TypeArgument = TypeArgument::Struct(v);
            assert(r@ == TypeArgumentModel::Struct(targs_model(v@)));
            r
        }
    }
}

impl Transaction {
    fn random_at(rng: &mut StdRng, timestamp: u64) -> (r: Self)
        ensures
            r@.timestamp == timestamp,
            transaction_shape(r@),
    {
        let nonce: u64 = random_u64(rng);
        let address: Address = Address::random(rng);
        let label: Label = Label::random(rng);
        let argument: Argument = Argument::random(rng, 8);
        let type_argument: TypeArgument = TypeArgument::random(rng, 8);
        let mut arguments: Vec<Argument> = Vec::new();
        arguments.push(argument);
        let mut type_arguments: Vec<TypeArgument> = Vec::new();
        type_arguments.push(type_argument);
        let payload: TransactionPayload = TransactionPayload::ExecutionPayload(
            ExecutionPayload { address, label, arguments, type_arguments },
        );
        let mut signer_group: Vec<Address> = Vec::new();
        signer_group.push(Address::random(rng));
        let mut signers: Vec<Vec<Address>> = Vec::new();
        signers.push(signer_group);
        let mut signature_group: Vec<Signature> = Vec::new();
        signature_group.push(Signature::random(rng));
        let mut signatures: Vec<Vec<Signature>> = Vec::new();
        signatures.push(signature_group);
        let r: Transaction = Transaction { timestamp, nonce, payload, signers, signatures };
        assert(r@.signers[0][0] == r.signers@[0]@[0]@);
        assert(r@.signatures[0][0] == r.signatures@[0]@[0]@);
        r
    }

    /// A transaction with random timestamp, nonce and contents.
    pub fn random(rng: &mut StdRng) -> (r: Self)
        ensures
            transaction_shape(r@),
    {
        let timestamp: u64 = random_u64(rng);
        Transaction::random_at(rng, timestamp)
    }

    /// A transaction stamped with the current time, with random nonce and
    /// contents.
    pub fn random_now(rng: &mut StdRng) -> (r: Self)
        ensures
            transaction_shape(r@),
    {
        let timestamp: u64 = now_secs();
        Transaction::random_at(rng, timestamp)
    }

    /// The hash of the transaction: the hexadecimal SHA-256 digest of its
    /// timestamp, nonce and payload text.
    pub fn hash(&self) -> (r: String)
        ensures
            r@ == transaction_hash(self@),
            r@.len() == 64,
    {
        let mut text: String = String::new();
        push_decimal(&mut text, self.timestamp as u128);
        push_decimal(&mut text, self.nonce as u128);
        push_transaction_payload_text(&mut text, &self.payload);
        assert(text@ =~= transaction_hash_text(self@));
        hash_text(&text)
    }

    /// The hash shortened for display: its first sixteen characters, with a
    /// space in front of each group of eight.
    pub fn display_hash(&self) -> (r: String)
        ensures
            r@ == spaced(transaction_hash(self@).take(16)),
            r@.len() == 18,
    {
        let hash: String = self.hash();
        let n: usize = 16;
        let mut display: String = String::new();
        let mut i: usize = 0;
        while i < n
            invariant
                n == 16,
                hash@.len() == 64,
                i <= n,
                display@ == spaced(hash@.take(i as int)),
                display@.len() == i + (i + 7) / 8,
            decreases n - i,
        {
            let c: char = hash.as_str().get_char(i);
            if i % 8 == 0 {
                push_char(&mut display, ' ');
            }
            push_char(&mut display, c);
            assert(hash@.take(i + 1).drop_last() =~= hash@.take(i as int));
            assert(display@ =~= spaced(hash@.take(i + 1)));
            i = i + 1;
        }
        display
    }
}

/// A block: a set of transactions chained to its parent by hash.
#[derive(Debug, PartialEq, Eq, PartialOrd, Ord, Hash)]
pub struct Block {
    pub timestamp: u64,
    pub slot_number: u64,
    pub transactions: TransactionSet,
    pub nonce: u64,
    pub previous_hash: String,
    pub hash: String,
}

/// The abstract value of a [`Block`]; its transactions in ascending order.
pub struct BlockModel {
    pub timestamp: u64,
    pub slot_number: u64,
    pub transactions: Seq<TransactionModel>,
    pub nonce: u64,
    pub previous_hash: Seq<char>,
    pub hash: Seq<char>,
}

impl View for Block {
    type V = BlockModel;

    open spec fn view(&self) -> BlockModel {
        BlockModel {
            timestamp: self.timestamp,
            slot_number: self.slot_number,
            transactions: self.transactions@,
            nonce: self.nonce,
            previous_hash: self.previous_hash@,
            hash: self.hash@,
        }
    }
}

/// The texts of the transactions, run together in order.
pub open spec fn transactions_text(s: Seq<TransactionModel>) -> Seq<char>
    decreases s.len(),
{
    if s.len() == 0 {
        Seq::empty()
    } else {
        transactions_text(s.drop_last()) + transaction_text(s.last())
    }
}

/// The text whose hash is the hash of a block: timestamp, previous hash,
/// nonce and the texts of its transactions in ascending order.
pub open spec fn block_hash_text(b: BlockModel) -> Seq<char> {
    decimal(b.timestamp as nat) + b.previous_hash + decimal(b.nonce as nat) + transactions_text(
        b.transactions,
    )
}

/// The hash a block should carry. It does not depend on the hash field.
pub open spec fn block_hash(b: BlockModel) -> Seq<char> {
    text_hash(block_hash_text(b))
}

/// The genesis block: time zero, slot zero, no transactions, nonce zero, an
/// empty previous hash, and its hash.
pub open spec fn genesis_block_model() -> BlockModel {
    let g: BlockModel = BlockModel {
        timestamp: 0,
        slot_number: 0,
        transactions: Seq::empty(),
        nonce: 0,
        previous_hash: Seq::empty(),
        hash: Seq::empty(),
    };
    BlockModel { hash: block_hash(g), ..g }
}

/// The block with another nonce.
pub open spec fn with_nonce(b: BlockModel, nonce: u64) -> BlockModel {
    BlockModel { nonce, ..b }
}

/// The first `difficulty` bytes of the hash's UTF-8 form are all `'0'`.
pub open spec fn proof_of_work_met(hash: Seq<char>, difficulty: nat) -> bool {
    &&& difficulty <= vstd::utf8::encode_utf8(hash).len()
    &&& forall|i: int| 0 <= i < difficulty ==> vstd::utf8::encode_utf8(hash)[i] == 48u8
}

/// The first `difficulty` bytes of the hash's UTF-8 form end on a
/// character boundary, so that they can be cut out as a string.
pub open spec fn prefix_in_bounds(hash: Seq<char>, difficulty: nat) -> bool {
    exists|k: int| 0 <= k <= hash.len() && vstd::utf8::encode_utf8(hash.take(k)).len() == difficulty
}

/// A prefix of an ASCII text ends on a character boundary.
pub proof fn lemma_ascii_prefix_in_bounds(hash: Seq<char>, difficulty: nat)
    requires
        vstd::utf8::is_ascii_chars(hash),
        difficulty <= hash.len(),
    ensures
        prefix_in_bounds(hash, difficulty),
{
    let p: Seq<char> = hash.take(difficulty as int);
    assert(vstd::utf8::is_ascii_chars(p));
    vstd::utf8::is_ascii_chars_encode_utf8(p);
}

/// A slot number: whole slots of `slot_secs` seconds since the epoch.
pub open spec fn slot_of(timestamp: u64, slot_secs: u64) -> u64
    recommends
        slot_secs > 0,
{
    (timestamp / slot_secs) as u64
}

impl Clone for Block {
    fn clone(&self) -> (r: Self)
        ensures
            r@ == self@,
    {
        Block {
            timestamp: self.timestamp,
            slot_number: self.slot_number,
            transactions: self.transactions.clone(),
            nonce: self.nonce,
            previous_hash: self.previous_hash.clone(),
            hash: self.hash.clone(),
        }
    }
}

impl Default for Block {
    fn default() -> (r: Self)
        ensures
            r@.timestamp == 0,
            r@.slot_number == 0,
            r@.transactions == Seq::<TransactionModel>::empty(),
            r@.nonce == 0,
            r@.previous_hash == Seq::<char>::empty(),
            r@.hash == Seq::<char>::empty(),
    {
        Block {
            timestamp: 0,
            slot_number: 0,
            transactions: TransactionSet::new(),
            nonce: 0,
            previous_hash: String::new(),
            hash: String::new(),
        }
    }
}

impl Block {
    /// A block made at time `timestamp`: its slot is derived from the time,
    /// its nonce is zero and its hash is computed.
    pub fn new_at(
        transactions: TransactionSet,
        previous_hash: &str,
        slot_secs: u64,
        timestamp: u64,
    ) -> (r: Block)
        requires
            slot_secs > 0,
        ensures
            r@.timestamp == timestamp,
            r@.slot_number == slot_of(timestamp, slot_secs),
            r@.transactions == transactions@,
            r@.nonce == 0,
            r@.previous_hash == previous_hash@,
            r@.hash == block_hash(r@),
    {
        let mut block: Block = Block {
            timestamp,
            slot_number: timestamp / slot_secs,
            transactions,
            previous_hash: previous_hash.to_owned(),
            hash: String::new(),
            nonce: 0,
        };
        block.hash = block.calculate_hash();
        block
    }

    /// A block made now: as [`Block::new_at`] with the current time.
    pub fn new(transactions: TransactionSet, previous_hash: &str, slot_secs: u64) -> (r: Block)
        requires
            slot_secs > 0,
        ensures
            r@.slot_number == slot_of(r@.timestamp, slot_secs),
            r@.transactions == transactions@,
            r@.nonce == 0,
            r@.previous_hash == previous_hash@,
            r@.hash == block_hash(r@),
    {
        let timestamp: u64 = now_secs();
        Block::new_at(transactions, previous_hash, slot_secs, timestamp)
    }

    /// The genesis block: time zero, no transactions, nonce zero, empty
    /// previous hash, and its computed hash.
    pub fn genesis(slot_secs: u64) -> (r: Block)
        requires
            slot_secs > 0,
        ensures
            r@.timestamp == 0,
            r@.slot_number == 0,
            r@.transactions == Seq::<TransactionModel>::empty(),
            r@.nonce == 0,
            r@.previous_hash == Seq::<char>::empty(),
            r@.hash == block_hash(r@),
            r@ == genesis_block_model(),
    {
        let timestamp: u64 = 0;
        let mut block: Block = Block {
            timestamp,
            slot_number: timestamp / slot_secs,
            transactions: TransactionSet::new(),
            nonce: 0,
            previous_hash: String::new(),
            hash: String::new(),
        };
        block.hash = block.calculate_hash();
        assert(block_hash_text(block@) =~= block_hash_text(genesis_block_model()));
        block
    }

    /// The hash this block should carry: the hexadecimal SHA-256 digest of
    /// its timestamp, previous hash, nonce and transaction texts.
    pub fn calculate_hash(&self) -> (r: String)
        ensures
            r@ == block_hash(self@),
            r@.len() == 64,
            vstd::utf8::is_ascii_chars(r@),
    {
        let mut text: String = String::new();
        push_decimal(&mut text, self.timestamp as u128);
        text.append(self.previous_hash.as_str());
        push_decimal(&mut text, self.nonce as u128);
        let ghost head: Seq<char> = text@;
        let n: usize = self.transactions.len();
        let mut i: usize = 0;
        while i < n
            invariant
                n == self.transactions@.len(),
                i <= n,
                text@ == head + transactions_text(self.transactions@.take(i as int)),
            decreases n - i,
        {
            push_transaction_text(&mut text, self.transactions.get(i));
            assert(self.transactions@.take(i + 1).drop_last() =~= self.transactions@.take(i as int));
            assert(text@ =~= head + transactions_text(self.transactions@.take(i + 1)));
            i = i + 1;
        }
        assert(self.transactions@.take(n as int) =~= self.transactions@);
        assert(text@ =~= block_hash_text(self@));
        hash_text(&text)
    }

    /// Whether the block carries the hash it should.
    pub fn check_hash(&self) -> (r: bool)
        ensures
            r == (self@.hash == block_hash(self@)),
    {
        let h: String = self.calculate_hash();
        self.hash == h
    }

    /// Adds a transaction; returns whether it was new to the block.
    pub fn add_transaction(&mut self, transaction: Transaction) -> (r: bool)
        ensures
            final(self)@.transactions.to_set() == old(self)@.transactions.to_set().insert(
                transaction@,
            ),
            r == !old(self)@.transactions.contains(transaction@),
            final(self)@.transactions.len() == old(self)@.transactions.len() + if r {
                1int
            } else {
                0int
            },
            final(self)@ == (BlockModel { transactions: final(self)@.transactions, ..old(self)@ }),
            is_strictly_sorted(final(self)@.transactions),
    {
        self.transactions.insert(transaction)
    }

    /// Removes a transaction; returns whether it was in the block.
    pub fn drop_transaction(&mut self, transaction: &Transaction) -> (r: bool)
        ensures
            final(self)@.transactions.to_set() == old(self)@.transactions.to_set().remove(
                transaction@,
            ),
            r == old(self)@.transactions.contains(transaction@),
            final(self)@ == (BlockModel { transactions: final(self)@.transactions, ..old(self)@ }),
            is_strictly_sorted(final(self)@.transactions),
    {
        self.transactions.remove(transaction)
    }

    /// Whether the first `difficulty` bytes of the hash are all `'0'`.
    pub fn verify_proof_of_work(&self, difficulty: usize) -> (r: bool)
        requires
            prefix_in_bounds(self@.hash, difficulty as nat),
        ensures
            r == proof_of_work_met(self@.hash, difficulty as nat),
    {
        let bytes: &[u8] = self.hash.as_str().as_bytes();
        if difficulty > bytes.len() {
            return false;
        }
        let mut i: usize = 0;
        while i < difficulty
            invariant
                difficulty <= bytes@.len(),
                bytes@ == vstd::utf8::encode_utf8(self@.hash),
                i <= difficulty,
                forall|j: int| 0 <= j < i ==> bytes@[j] == 48u8,
            decreases difficulty - i,
        {
            if bytes[i] != 48u8 {
                return false;
            }
            i = i + 1;
        }
        true
    }

    /// Searches for a nonce, counting up from the current one, whose hash
    /// starts with `difficulty` zeros, and stores that nonce and hash. The
    /// search stops at the largest nonce, where the block is left with the
    /// hash of that nonce.
    pub fn mine_block(&mut self, difficulty: usize)
        requires
            difficulty <= 64,
        ensures
            final(self)@ == (BlockModel {
                nonce: final(self)@.nonce,
                hash: final(self)@.hash,
                ..old(self)@
            }),
            final(self)@.hash == block_hash(final(self)@),
            old(self)@.nonce <= final(self)@.nonce,
            proof_of_work_met(final(self)@.hash, difficulty as nat) || final(self)@.nonce == u64::MAX,
            forall|n: u64|
                old(self)@.nonce <= n < final(self)@.nonce ==> !proof_of_work_met(
                    #[trigger] block_hash(with_nonce(old(self)@, n)),
                    difficulty as nat,
                ),
    {
        self.hash = self.calculate_hash();
        proof {
            lemma_ascii_prefix_in_bounds(self@.hash, difficulty as nat);
        }
        while self.nonce < u64::MAX && !self.verify_proof_of_work(difficulty)
            invariant
                difficulty <= 64,
                self@ == (BlockModel { nonce: self@.nonce, hash: self@.hash, ..old(self)@ }),
                self@.hash == block_hash(self@),
                self@.hash.len() == 64,
                vstd::utf8::is_ascii_chars(self@.hash),
                prefix_in_bounds(self@.hash, difficulty as nat),
                old(self)@.nonce <= self@.nonce,
                forall|n: u64|
                    old(self)@.nonce <= n < self@.nonce ==> !proof_of_work_met(
                        #[trigger] block_hash(with_nonce(old(self)@, n)),
                        difficulty as nat,
                    ),
            decreases u64::MAX - self.nonce,
        {
            proof {
                assert(block_hash_text(with_nonce(old(self)@, self@.nonce)) == block_hash_text(self@));
            }
            self.nonce = self.nonce + 1;
            self.hash = self.calculate_hash();
            proof {
                lemma_ascii_prefix_in_bounds(self@.hash, difficulty as nat);
            }
        }
        proof {
            if self.nonce < u64::MAX {
                assert(proof_of_work_met(self@.hash, difficulty as nat));
            }
        }
    }

    /// The slot of the block's timestamp.
    pub fn compute_slot_number(&self, slot_secs: u64) -> (r: u64)
        requires
            slot_secs > 0,
        ensures
            r == slot_of(self.timestamp, slot_secs),
    {
        self.timestamp / slot_secs
    }

    /// The checks that do not need the difficulty: the block carries its
    /// hash and the slot of its timestamp.
    pub fn pre_verify_self(&self, slot_secs: u64) -> (r: bool)
        requires
            slot_secs > 0,
        ensures
            r == (self@.hash == block_hash(self@) && self.slot_number == slot_of(
                self.timestamp,
                slot_secs,
            )),
    {
        self.check_hash() && (self.compute_slot_number(slot_secs) == self.slot_number)
    }

    /// All checks of a mined block: its hash, its slot and its proof of
    /// work.
    pub fn verify_self(&self, slot_secs: u64, difficulty: usize) -> (r: bool)
        requires
            slot_secs > 0,
            self@.hash == block_hash(self@) && self.slot_number == slot_of(self.timestamp, slot_secs)
                ==> difficulty <= 64,
        ensures
            r == (self@.hash == block_hash(self@) && self.slot_number == slot_of(
                self.timestamp,
                slot_secs,
            ) && proof_of_work_met(self@.hash, difficulty as nat)),
    {
        let h: String = self.calculate_hash();
        if !(self.hash == h) {
            return false;
        }
        if self.compute_slot_number(slot_secs) != self.slot_number {
            return false;
        }
        proof {
            lemma_ascii_prefix_in_bounds(self@.hash, difficulty as nat);
        }
        self.verify_proof_of_work(difficulty)
    }

    /// A block with random time, nonce and up to 31 random transactions,
    /// an empty previous hash, its slot and its computed hash.
    pub fn random(rng: &mut StdRng, slot_secs: u64) -> (r: Self)
        requires
            slot_secs > 0,
        ensures
            r@.slot_number == slot_of(r@.timestamp, slot_secs),
            r@.transactions.len() < 32,
            forall|i: int| 0 <= i < r@.transactions.len() ==> transaction_shape(#[trigger] r@.transactions[i]),
            r@.previous_hash == Seq::<char>::empty(),
            r@.hash == block_hash(r@),
    {
        let timestamp: u64 = random_u64(rng);
        let mut transactions: TransactionSet = TransactionSet::new();
        let count: u64 = random_in_range(rng, 0, 32);
        let mut i: u64 = 0;
        while i < count
            invariant
                count < 32,
                i <= count,
                transactions@.len() <= i,
                forall|j: int| 0 <= j < transactions@.len() ==> transaction_shape(#[trigger] transactions@[j]),
            decreases count - i,
        {
            let t: Transaction = Transaction::random(rng);
            let ghost before: Seq<TransactionModel> = transactions@;
            let ghost tm: TransactionModel = t@;
            transactions.insert(t);
            proof {
                assert forall|j: int| 0 <= j < transactions@.len() implies transaction_shape(#[trigger] transactions@[j]) by {
                    assert(transactions@.to_set().contains(transactions@[j]));
                    assert(before.to_set().insert(tm).contains(transactions@[j]));
                    if transactions@[j] != tm {
                        assert(before.to_set().contains(transactions@[j]));
                        let k: int = choose|k: int| 0 <= k < before.len() && before[k] == transactions@[j];
                    }
                }
            }
            i = i + 1;
        }
        let nonce: u64 = random_u64(rng);
        let mut block: Block = Block {
            timestamp,
            slot_number: timestamp / slot_secs,
            transactions,
            nonce,
            previous_hash: String::new(),
            hash: String::new(),
        };
        block.hash = block.calculate_hash();
        block
    }
}

/// The hash of a block is fixed by the set of its transactions: two blocks
/// with the same time, parent and nonce whose transactions (each kept in
/// ascending order) are the same set carry the same hash, in whatever order
/// the transactions were added.
pub proof fn lemma_block_hash_depends_on_transaction_set(a: BlockModel, b: BlockModel)
    requires
        is_strictly_sorted(a.transactions),
        is_strictly_sorted(b.transactions),
        a.transactions.to_set() == b.transactions.to_set(),
        a.timestamp == b.timestamp,
        a.previous_hash == b.previous_hash,
        a.nonce == b.nonce,
    ensures
        block_hash(a) == block_hash(b),
{
    lemma_sorted_unique(a.transactions, b.transactions);
    assert(block_hash_text(a) == block_hash_text(b));
}

/// Adding a transaction a block did not hold and dropping it again gives
/// back the block's transactions as they were.
pub proof fn lemma_add_then_drop_restores(
    before: Seq<TransactionModel>,
    added: Seq<TransactionModel>,
    dropped: Seq<TransactionModel>,
    t: TransactionModel,
)
    requires
        is_strictly_sorted(before),
        is_strictly_sorted(added),
        is_strictly_sorted(dropped),
        !before.contains(t),
        added.to_set() == before.to_set().insert(t),
        dropped.to_set() == added.to_set().remove(t),
    ensures
        dropped == before,
{
    assert(dropped.to_set() =~= before.to_set());
    lemma_sorted_unique(dropped, before);
}

/// A mined block passes every check of [`Block::verify_self`]: mining a
/// block whose slot matches its time changes only its nonce and hash, and
/// unless the search ran out of nonces the block then carries its hash, its
/// slot and its proof of work.
pub proof fn lemma_mined_block_verifies(before: BlockModel, after: BlockModel, slot_secs: u64, difficulty: nat)
    requires
        slot_secs > 0,
        before.slot_number == slot_of(before.timestamp, slot_secs),
        after == (BlockModel { nonce: after.nonce, hash: after.hash, ..before }),
        after.hash == block_hash(after),
        proof_of_work_met(after.hash, difficulty) || after.nonce == u64::MAX,
        after.nonce < u64::MAX,
    ensures
        after.hash == block_hash(after),
        after.slot_number == slot_of(after.timestamp, slot_secs),
        proof_of_work_met(after.hash, difficulty),
        after.transactions == before.transactions,
        after.previous_hash == before.previous_hash,
{
}

/// A transaction's hash covers its time, nonce and payload only: two
/// transactions that agree on these have the same hash, whoever signed
/// them.
pub proof fn lemma_transaction_hash_ignores_signatures(a: TransactionModel, b: TransactionModel)
    requires
        a.timestamp == b.timestamp,
        a.nonce == b.nonce,
        a.payload == b.payload,
    ensures
        transaction_hash(a) == transaction_hash(b),
{
    assert(transaction_hash_text(a) == transaction_hash_text(b));
}

} // verus!
