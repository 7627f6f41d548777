//! The text form of transactions that goes into hashes. It is the layout
//! of Rust's derived `Debug` output, for example
//! `Transaction { timestamp: 1, nonce: 2, payload: ExecutionPayload(...), signers: [[Address([7])]], signatures: [[Signature([8])]] }`.
use vstd::prelude::*;
use crate::text::{bytes_text, decimal, join_items, list_text, push_bytes_text, push_decimal};
use super::block::{
    Address, Argument, ArgumentModel, ExecutionPayload, PayloadModel, Signature, Transaction,
    TransactionModel, TransactionPayload, TypeArgument, TypeArgumentModel, addresses_model,
    address_groups_model, args_model, signatures_model, signature_groups_model, targs_model,
};

verus! {

pub open spec fn arg_text(a: ArgumentModel) -> Seq<char>
    decreases a,
{
    match a {
        ArgumentModel::U8(x) => "U8("@ + decimal(x as nat) + ")"@,
        ArgumentModel::U16(x) => "U16("@ + decimal(x as nat) + ")"@,
        ArgumentModel::U32(x) => "U32("@ + decimal(x as nat) + ")"@,
        ArgumentModel::U64(x) => "U64("@ + decimal(x as nat) + ")"@,
        ArgumentModel::U128(x) => "U128("@ + decimal(x as nat) + ")"@,
        ArgumentModel::Address(x) => "Address(Address("@ + bytes_text(x) + "))"@,
        ArgumentModel::Signer(x) => "Signer(Signer(Address("@ + bytes_text(x) + ")))"@,
        ArgumentModel::Vector(v) => "Vector("@ + list_text(args_texts(v)) + ")"@,
        ArgumentModel::Struct(v) => "Struct("@ + list_text(args_texts(v)) + ")"@,
    }
}

pub open spec fn args_texts(v: Seq<ArgumentModel>) -> Seq<Seq<char>>
    decreases v,
{
    Seq::new(
        v.len(),
        |i: int|
            if 0 <= i < v.len() {
                arg_text(v[i])
            } else {
                Seq::empty()
            },
    )
}

pub open spec fn targ_text(t: TypeArgumentModel) -> Seq<char>
    decreases t,
{
    match t {
        TypeArgumentModel::U8 => "U8"@,
        TypeArgumentModel::U16 => "U16"@,
        TypeArgumentModel::U32 => "U32"@,
        TypeArgumentModel::U64 => "U64"@,
        TypeArgumentModel::U128 => "U128"@,
        TypeArgumentModel::Address => "Address"@,
        TypeArgumentModel::Signer => "Signer"@,
        TypeArgumentModel::Vector(b) => "Vector("@ + targ_text(*b) + ")"@,
        TypeArgumentModel::Struct(v) => "Struct("@ + list_text(targs_texts(v)) + ")"@,
    }
}

pub open spec fn targs_texts(v: Seq<TypeArgumentModel>) -> Seq<Seq<char>>
    decreases v,
{
    Seq::new(
        v.len(),
        |i: int|
            if 0 <= i < v.len() {
                targ_text(v[i])
            } else {
                Seq::empty()
            },
    )
}

pub open spec fn address_text(a: Seq<u8>) -> Seq<char> {
    "Address("@ + bytes_text(a) + ")"@
}

pub open spec fn signature_text(a: Seq<u8>) -> Seq<char> {
    "Signature("@ + bytes_text(a) + ")"@
}

pub open spec fn address_list_text(g: Seq<Seq<u8>>) -> Seq<char> {
    list_text(Seq::new(g.len(), |i: int| address_text(g[i])))
}

pub open spec fn signature_list_text(g: Seq<Seq<u8>>) -> Seq<char> {
    list_text(Seq::new(g.len(), |i: int| signature_text(g[i])))
}

pub open spec fn address_groups_text(g: Seq<Seq<Seq<u8>>>) -> Seq<char> {
    list_text(Seq::new(g.len(), |i: int| address_list_text(g[i])))
}

pub open spec fn signature_groups_text(g: Seq<Seq<Seq<u8>>>) -> Seq<char> {
    list_text(Seq::new(g.len(), |i: int| signature_list_text(g[i])))
}

/// Text of an execution payload.
pub open spec fn payload_text(p: PayloadModel) -> Seq<char> {
    "ExecutionPayload { address: Address("@ + bytes_text(p.address) + "), label: Label("@
        + bytes_text(p.label) + "), arguments: "@ + list_text(args_texts(p.arguments))
        + ", type_arguments: "@ + list_text(targs_texts(p.type_arguments)) + " }"@
}

/// Text of a transaction payload (the variant wrapped around the payload).
pub open spec fn transaction_payload_text(p: PayloadModel) -> Seq<char> {
    "ExecutionPayload("@ + payload_text(p) + ")"@
}

/// Text of a whole transaction.
pub open spec fn transaction_text(t: TransactionModel) -> Seq<char> {
    "Transaction { timestamp: "@ + decimal(t.timestamp as nat) + ", nonce: "@ + decimal(
        t.nonce as nat,
    ) + ", payload: "@ + transaction_payload_text(t.payload) + ", signers: "@
        + address_groups_text(t.signers) + ", signatures: "@ + signature_groups_text(t.signatures)
        + " }"@
}

/// Joining one more item onto a prefix of a list.
pub proof fn lemma_join_step(items: Seq<Seq<char>>, i: int)
    requires
        0 <= i < items.len(),
    ensures
        join_items(items.take(i + 1)) == if i == 0 {
            items[0]
        } else {
            join_items(items.take(i)) + ", "@ + items[i]
        },
{
    let t: Seq<Seq<char>> = items.take(i + 1);
    assert(t.drop_last() =~= items.take(i));
    if i == 0 {
        assert(t.len() == 1);
    }
}

fn push_arg_text(s: &mut String, a: &Argument)
    ensures
        final(s)@ == old(s)@ + arg_text(a@),
    decreases a,
{
    let ghost start: Seq<char> = s@;
    match a {
        Argument::U8(x) => {
            s.append("U8(");
            push_decimal(s, *x as u128);
            s.append(")");
        },
        Argument::U16(x) => {
            s.append("U16(");
            push_decimal(s, *x as u128);
            s.append(")");
        },
        Argument::U32(x) => {
            s.append("U32(");
            push_decimal(s, *x as u128);
            s.append(")");
        },
        Argument::U64(x) => {
            s.append("U64(");
            push_decimal(s, *x as u128);
            s.append(")");
        },
        Argument::U128(x) => {
            s.append("U128(");
            push_decimal(s, *x);
            s.append(")");
        },
        Argument::Address(x) => {
            s.append("Address(Address(");
            push_bytes_text(s, &x.0);
            s.append("))");
        },
        Argument::Signer(x) => {
            s.append("Signer(Signer(Address(");
            push_bytes_text(s, &x.0.0);
            s.append(")))");
        },
        Argument::Vector(v) => {
            s.append("Vector(");
            push_args_text(s, v);
            s.append(")");
        },
        Argument::Struct(v) => {
            s.append("Struct(");
            push_args_text(s, v);
            s.append(")");
        },
    }
    assert(s@ =~= start + arg_text(a@));
}

fn push_args_text(s: &mut String, v: &Vec<Argument>)
    ensures
        final(s)@ == old(s)@ + list_text(args_texts(args_model(v@))),
    decreases v,
{
    let ghost start: Seq<char> = s@;
    let ghost items: Seq<Seq<char>> = args_texts(args_model(v@));
    s.append("[");
    let n: usize = v.len();
    let mut i: usize = 0;
    while i < n
        invariant
            n == v@.len(),
            i <= n,
            items == args_texts(args_model(v@)),
            items.len() == n,
            s@ == start + "["@ + join_items(items.take(i as int)),
        decreases n - i,
    {
        if i > 0 {
            s.append(", ");
        }
        push_arg_text(s, &v[i]);
        proof {
            lemma_join_step(items, i as int);
            assert(items[i as int] == arg_text(v@[i as int]@));
        }
        assert(s@ =~= start + "["@ + join_items(items.take(i + 1)));
        i = i + 1;
    }
    s.append("]");
    assert(items.take(n as int) =~= items);
    assert(s@ =~= start + list_text(items));
}

fn push_targ_text(s: &mut String, t: &TypeArgument)
    ensures
        final(s)@ == old(s)@ + targ_text(t@),
    decreases t,
{
    let ghost start: Seq<char> = s@;
    match t {
        TypeArgument::U8 => s.append("U8"),
        TypeArgument::U16 => s.append("U16"),
        TypeArgument::U32 => s.append("U32"),
        TypeArgument::U64 => s.append("U64"),
        TypeArgument::U128 => s.append("U128"),
        TypeArgument::Address => s.append("Address"),
        TypeArgument::Signer => s.append("Signer"),
        TypeArgument::Vector(b) => {
            s.append("Vector(");
            push_targ_text(s, b);
            s.append(")");
        },
        TypeArgument::Struct(v) => {
            s.append("Struct(");
            push_targs_text(s, v);
            s.append(")");
        },
    }
    assert(s@ =~= start + targ_text(t@));
}

fn push_targs_text(s: &mut String, v: &Vec<TypeArgument>)
    ensures
        final(s)@ == old(s)@ + list_text(targs_texts(targs_model(v@))),
    decreases v,
{
    let ghost start: Seq<char> = s@;
    let ghost items: Seq<Seq<char>> = targs_texts(targs_model(v@));
    s.append("[");
    let n: usize = v.len();
    let mut i: usize = 0;
    while i < n
        invariant
            n == v@.len(),
            i <= n,
            items == targs_texts(targs_model(v@)),
            items.len() == n,
            s@ == start + "["@ + join_items(items.take(i as int)),
        decreases n - i,
    {
        if i > 0 {
            s.append(", ");
        }
        push_targ_text(s, &v[i]);
        proof {
            lemma_join_step(items, i as int);
            assert(items[i as int] == targ_text(v@[i as int]@));
        }
        assert(s@ =~= start + "["@ + join_items(items.take(i + 1)));
        i = i + 1;
    }
    s.append("]");
    assert(items.take(n as int) =~= items);
    assert(s@ =~= start + list_text(items));
}

fn push_address_list_text(s: &mut String, v: &Vec<Address>)
    ensures
        final(s)@ == old(s)@ + address_list_text(addresses_model(v@)),
{
    let ghost start: Seq<char> = s@;
    let ghost g: Seq<Seq<u8>> = addresses_model(v@);
    let ghost items: Seq<Seq<char>> = Seq::new(g.len(), |i: int| address_text(g[i]));
    s.append("[");
    let n: usize = v.len();
    let mut i: usize = 0;
    while i < n
        invariant
            n == v@.len(),
            i <= n,
            g == addresses_model(v@),
            items == Seq::new(g.len(), |i: int| address_text(g[i])),
            s@ == start + "["@ + join_items(items.take(i as int)),
        decreases n - i,
    {
        if i > 0 {
            s.append(", ");
        }
        s.append("Address(");
        push_bytes_text(s, &v[i].0);
        s.append(")");
        proof {
            lemma_join_step(items, i as int);
        }
        assert(s@ =~= start + "["@ + join_items(items.take(i + 1)));
        i = i + 1;
    }
    s.append("]");
    assert(items.take(n as int) =~= items);
    assert(s@ =~= start + list_text(items));
}

fn push_signature_list_text(s: &mut String, v: &Vec<Signature>)
    ensures
        final(s)@ == old(s)@ + signature_list_text(signatures_model(v@)),
{
    let ghost start: Seq<char> = s@;
    let ghost g: Seq<Seq<u8>> = signatures_model(v@);
    let ghost items: Seq<Seq<char>> = Seq::new(g.len(), |i: int| signature_text(g[i]));
    s.append("[");
    let n: usize = v.len();
    let mut i: usize = 0;
    while i < n
        invariant
            n == v@.len(),
            i <= n,
            g == signatures_model(v@),
            items == Seq::new(g.len(), |i: int| signature_text(g[i])),
            s@ == start + "["@ + join_items(items.take(i as int)),
        decreases n - i,
    {
        if i > 0 {
            s.append(", ");
        }
        s.append("Signature(");
        push_bytes_text(s, &v[i].0);
        s.append(")");
        proof {
            lemma_join_step(items, i as int);
        }
        assert(s@ =~= start + "["@ + join_items(items.take(i + 1)));
        i = i + 1;
    }
    s.append("]");
    assert(items.take(n as int) =~= items);
    assert(s@ =~= start + list_text(items));
}

fn push_address_groups_text(s: &mut String, v: &Vec<Vec<Address>>)
    ensures
        final(s)@ == old(s)@ + address_groups_text(address_groups_model(v@)),
{
    let ghost start: Seq<char> = s@;
    let ghost g: Seq<Seq<Seq<u8>>> = address_groups_model(v@);
    let ghost items: Seq<Seq<char>> = Seq::new(g.len(), |i: int| address_list_text(g[i]));
    s.append("[");
    let n: usize = v.len();
    let mut i: usize = 0;
    while i < n
        invariant
            n == v@.len(),
            i <= n,
            g == address_groups_model(v@),
            items == Seq::new(g.len(), |i: int| address_list_text(g[i])),
            s@ == start + "["@ + join_items(items.take(i as int)),
        decreases n - i,
    {
        if i > 0 {
            s.append(", ");
        }
        push_address_list_text(s, &v[i]);
        proof {
            lemma_join_step(items, i as int);
        }
        assert(s@ =~= start + "["@ + join_items(items.take(i + 1)));
        i = i + 1;
    }
    s.append("]");
    assert(items.take(n as int) =~= items);
    assert(s@ =~= start + list_text(items));
}

fn push_signature_groups_text(s: &mut String, v: &Vec<Vec<Signature>>)
    ensures
        final(s)@ == old(s)@ + signature_groups_text(signature_groups_model(v@)),
{
    let ghost start: Seq<char> = s@;
    let ghost g: Seq<Seq<Seq<u8>>> = signature_groups_model(v@);
    let ghost items: Seq<Seq<char>> = Seq::new(g.len(), |i: int| signature_list_text(g[i]));
    s.append("[");
    let n: usize = v.len();
    let mut i: usize = 0;
    while i < n
        invariant
            n == v@.len(),
            i <= n,
            g == signature_groups_model(v@),
            items == Seq::new(g.len(), |i: int| signature_list_text(g[i])),
            s@ == start + "["@ + join_items(items.take(i as int)),
        decreases n - i,
    {
        if i > 0 {
            s.append(", ");
        }
        push_signature_list_text(s, &v[i]);
        proof {
            lemma_join_step(items, i as int);
        }
        assert(s@ =~= start + "["@ + join_items(items.take(i + 1)));
        i = i + 1;
    }
    s.append("]");
    assert(items.take(n as int) =~= items);
    assert(s@ =~= start + list_text(items));
}

fn push_payload_text(s: &mut String, p: &ExecutionPayload)
    ensures
        final(s)@ == old(s)@ + payload_text(p@),
{
    let ghost start: Seq<char> = s@;
    s.append("ExecutionPayload { address: Address(");
    push_bytes_text(s, &p.address.0);
    s.append("), label: Label(");
    push_bytes_text(s, &p.label.0);
    s.append("), arguments: ");
    push_args_text(s, &p.arguments);
    s.append(", type_arguments: ");
    push_targs_text(s, &p.type_arguments);
    s.append(" }");
    assert(s@ =~= start + payload_text(p@));
}

/// Appends the text of a transaction payload.
pub fn push_transaction_payload_text(s: &mut String, p: &TransactionPayload)
    ensures
        final(s)@ == old(s)@ + transaction_payload_text(p@),
{
    let ghost start: Seq<char> = s@;
    match p {
        TransactionPayload::ExecutionPayload(q) => {
            s.append("ExecutionPayload(");
            push_payload_text(s, q);
            s.append(")");
        },
    }
    assert(s@ =~= start + transaction_payload_text(p@));
}

/// Appends the text of a transaction.
pub fn push_transaction_text(s: &mut String, t: &Transaction)
    ensures
        final(s)@ == old(s)@ + transaction_text(t@),
{
    let ghost start: Seq<char> = s@;
    s.append("Transaction { timestamp: ");
    push_decimal(s, t.timestamp as u128);
    s.append(", nonce: ");
    push_decimal(s, t.nonce as u128);
    s.append(", payload: ");
    push_transaction_payload_text(s, &t.payload);
    s.append(", signers: ");
    push_address_groups_text(s, &t.signers);
    s.append(", signatures: ");
    push_signature_groups_text(s, &t.signatures);
    s.append(" }");
    assert(s@ =~= start + transaction_text(t@));
}

} // verus!
