//! The order of transactions: lexicographic over their fields, variants
//! ordered by declaration, sequences compared element by element with a
//! shorter prefix first. Results are `-1`, `0` and `1`.
use vstd::prelude::*;
use super::block::{
    Address, Argument, ArgumentModel, Block, BlockModel, ExecutionPayload, PayloadModel, Signature, Transaction,
    TransactionModel, TransactionPayload, TypeArgument, TypeArgumentModel, addresses_model,
    address_groups_model, args_model, signatures_model, signature_groups_model, targs_model,
};

verus! {

/// Three-way comparison of two integers.
pub open spec fn compare_num(a: int, b: int) -> int {
    if a < b {
        -1
    } else if a == b {
        0
    } else {
        1
    }
}

/// The first comparison unless it is a tie, then the second.
pub open spec fn tie_break(first: int, second: int) -> int {
    if first != 0 {
        first
    } else {
        second
    }
}

/// Lexicographic comparison of two sequences under an element order.
pub open spec fn lex<T>(a: Seq<T>, b: Seq<T>, f: spec_fn(T, T) -> int) -> int
    decreases a.len(),
{
    if a.len() == 0 {
        if b.len() == 0 {
            0
        } else {
            -1
        }
    } else if b.len() == 0 {
        1
    } else {
        tie_break(f(a[0], b[0]), lex(a.drop_first(), b.drop_first(), f))
    }
}

/// `f` is a strict total order written as a three-way comparison.
pub open spec fn is_total_order<T>(f: spec_fn(T, T) -> int) -> bool {
    &&& forall|x: T, y: T| -1 <= #[trigger] f(x, y) <= 1
    &&& forall|x: T, y: T| #[trigger] f(x, y) == -f(y, x)
    &&& forall|x: T, y: T| #[trigger] f(x, y) == 0 <==> x == y
    &&& forall|x: T, y: T, z: T| #[trigger] f(x, y) < 0 && #[trigger] f(y, z) < 0 ==> f(x, z) < 0
}

pub open spec fn byte_order() -> spec_fn(u8, u8) -> int {
    |x: u8, y: u8| compare_num(x as int, y as int)
}

pub open spec fn compare_bytes(a: Seq<u8>, b: Seq<u8>) -> int {
    lex(a, b, byte_order())
}

pub open spec fn bytes_order() -> spec_fn(Seq<u8>, Seq<u8>) -> int {
    |x: Seq<u8>, y: Seq<u8>| compare_bytes(x, y)
}

pub open spec fn compare_byte_lists(a: Seq<Seq<u8>>, b: Seq<Seq<u8>>) -> int {
    lex(a, b, bytes_order())
}

pub open spec fn byte_lists_order() -> spec_fn(Seq<Seq<u8>>, Seq<Seq<u8>>) -> int {
    |x: Seq<Seq<u8>>, y: Seq<Seq<u8>>| compare_byte_lists(x, y)
}

pub open spec fn compare_byte_groups(a: Seq<Seq<Seq<u8>>>, b: Seq<Seq<Seq<u8>>>) -> int {
    lex(a, b, byte_lists_order())
}

/// Declaration index of an argument variant.
pub open spec fn arg_tag(a: ArgumentModel) -> int {
    match a {
        ArgumentModel::U8(_) => 0,
        ArgumentModel::U16(_) => 1,
        ArgumentModel::U32(_) => 2,
        ArgumentModel::U64(_) => 3,
        ArgumentModel::U128(_) => 4,
        ArgumentModel::Address(_) => 5,
        ArgumentModel::Signer(_) => 6,
        ArgumentModel::Vector(_) => 7,
        ArgumentModel::Struct(_) => 8,
    }
}

pub open spec fn compare_arg(a: ArgumentModel, b: ArgumentModel) -> int
    decreases a,
{
    if arg_tag(a) != arg_tag(b) {
        compare_num(arg_tag(a), arg_tag(b))
    } else {
        match a {
            ArgumentModel::U8(x) => match b {
                ArgumentModel::U8(y) => compare_num(x as int, y as int),
                _ => 0,
            },
            ArgumentModel::U16(x) => match b {
                ArgumentModel::U16(y) => compare_num(x as int, y as int),
                _ => 0,
            },
            ArgumentModel::U32(x) => match b {
                ArgumentModel::U32(y) => compare_num(x as int, y as int),
                _ => 0,
            },
            ArgumentModel::U64(x) => match b {
                ArgumentModel::U64(y) => compare_num(x as int, y as int),
                _ => 0,
            },
            ArgumentModel::U128(x) => match b {
                ArgumentModel::U128(y) => compare_num(x as int, y as int),
                _ => 0,
            },
            ArgumentModel::Address(x) => match b {
                ArgumentModel::Address(y) => compare_bytes(x, y),
                _ => 0,
            },
            ArgumentModel::Signer(x) => match b {
                ArgumentModel::Signer(y) => compare_bytes(x, y),
                _ => 0,
            },
            ArgumentModel::Vector(x) => match b {
                ArgumentModel::Vector(y) => compare_args(x, y),
                _ => 0,
            },
            ArgumentModel::Struct(x) => match b {
                ArgumentModel::Struct(y) => compare_args(x, y),
                _ => 0,
            },
        }
    }
}

pub open spec fn compare_args(a: Seq<ArgumentModel>, b: Seq<ArgumentModel>) -> int
    decreases a,
{
    if a.len() == 0 {
        if b.len() == 0 {
            0
        } else {
            -1
        }
    } else if b.len() == 0 {
        1
    } else {
        tie_break(compare_arg(a[0], b[0]), compare_args(a.drop_first(), b.drop_first()))
    }
}

/// Declaration index of a type argument variant.
pub open spec fn targ_tag(a: TypeArgumentModel) -> int {
    match a {
        TypeArgumentModel::U8 => 0,
        TypeArgumentModel::U16 => 1,
        TypeArgumentModel::U32 => 2,
        TypeArgumentModel::U64 => 3,
        TypeArgumentModel::U128 => 4,
        TypeArgumentModel::Address => 5,
        TypeArgumentModel::Signer => 6,
        TypeArgumentModel::Vector(_) => 7,
        TypeArgumentModel::Struct(_) => 8,
    }
}

pub open spec fn compare_targ(a: TypeArgumentModel, b: TypeArgumentModel) -> int
    decreases a,
{
    if targ_tag(a) != targ_tag(b) {
        compare_num(targ_tag(a), targ_tag(b))
    } else {
        match a {
            TypeArgumentModel::Vector(x) => match b {
                TypeArgumentModel::Vector(y) => compare_targ(*x, *y),
                _ => 0,
            },
            TypeArgumentModel::Struct(x) => match b {
                TypeArgumentModel::Struct(y) => compare_targs(x, y),
                _ => 0,
            },
            _ => 0,
        }
    }
}

pub open spec fn compare_targs(a: Seq<TypeArgumentModel>, b: Seq<TypeArgumentModel>) -> int
    decreases a,
{
    if a.len() == 0 {
        if b.len() == 0 {
            0
        } else {
            -1
        }
    } else if b.len() == 0 {
        1
    } else {
        tie_break(compare_targ(a[0], b[0]), compare_targs(a.drop_first(), b.drop_first()))
    }
}

pub open spec fn compare_payload(a: PayloadModel, b: PayloadModel) -> int {
    tie_break(
        compare_bytes(a.address, b.address),
        tie_break(
            compare_bytes(a.label, b.label),
            tie_break(
                compare_args(a.arguments, b.arguments),
                compare_targs(a.type_arguments, b.type_arguments),
            ),
        ),
    )
}

/// The order of transactions: timestamp, nonce, payload, signers,
/// signatures, each compared in turn.
pub open spec fn compare_transaction(a: TransactionModel, b: TransactionModel) -> int {
    tie_break(
        compare_num(a.timestamp as int, b.timestamp as int),
        tie_break(
            compare_num(a.nonce as int, b.nonce as int),
            tie_break(
                compare_payload(a.payload, b.payload),
                tie_break(
                    compare_byte_groups(a.signers, b.signers),
                    compare_byte_groups(a.signatures, b.signatures),
                ),
            ),
        ),
    )
}

pub open spec fn transaction_order() -> spec_fn(TransactionModel, TransactionModel) -> int {
    |x: TransactionModel, y: TransactionModel| compare_transaction(x, y)
}

/// Lexicographic comparison inherits range, antisymmetry and the tie
/// meaning equality from a total element order.
pub proof fn lemma_lex_basic<T>(a: Seq<T>, b: Seq<T>, f: spec_fn(T, T) -> int)
    requires
        is_total_order(f),
    ensures
        -1 <= lex(a, b, f) <= 1,
        lex(a, b, f) == -lex(b, a, f),
        lex(a, b, f) == 0 <==> a == b,
    decreases a.len(),
{
    if a.len() > 0 && b.len() > 0 {
        lemma_lex_basic(a.drop_first(), b.drop_first(), f);
        assert(f(a[0], b[0]) == -f(b[0], a[0]));
        assert(-1 <= f(a[0], b[0]) <= 1);
        if lex(a, b, f) == 0 {
            assert(f(a[0], b[0]) == 0);
            assert(a =~= b) by {
                assert forall|i: int| 0 <= i < a.len() implies a[i] == b[i] by {
                    if i > 0 {
                        assert(a[i] == a.drop_first()[i - 1]);
                        assert(b[i] == b.drop_first()[i - 1]);
                    }
                }
            }
        }
        if a == b {
            assert(f(a[0], a[0]) == 0);
            assert(a.drop_first() == b.drop_first());
        }
    } else if a.len() == 0 && b.len() == 0 {
        assert(a =~= b);
    }
}

/// Lexicographic comparison is transitive under a total element order.
pub proof fn lemma_lex_trans<T>(a: Seq<T>, b: Seq<T>, c: Seq<T>, f: spec_fn(T, T) -> int)
    requires
        is_total_order(f),
        lex(a, b, f) < 0,
        lex(b, c, f) < 0,
    ensures
        lex(a, c, f) < 0,
    decreases a.len(),
{
    if a.len() > 0 {
        let x: int = f(a[0], b[0]);
        let y: int = f(b[0], c[0]);
        assert(f(a[0], c[0]) == f(a[0], c[0]));
        if x == 0 && y == 0 {
            assert(a[0] == b[0]);
            assert(b[0] == c[0]);
            lemma_lex_trans(a.drop_first(), b.drop_first(), c.drop_first(), f);
        } else if x == 0 {
            assert(a[0] == b[0]);
        } else if y == 0 {
            assert(b[0] == c[0]);
        } else {
            assert(x < 0 && y < 0);
        }
    }
}

/// Lexicographic comparison under a total order is a total order.
pub proof fn lemma_lex_total<T>(f: spec_fn(T, T) -> int)
    requires
        is_total_order(f),
    ensures
        is_total_order(|x: Seq<T>, y: Seq<T>| lex(x, y, f)),
{
    let g = |x: Seq<T>, y: Seq<T>| lex(x, y, f);
    assert forall|x: Seq<T>, y: Seq<T>| -1 <= #[trigger] g(x, y) <= 1 && g(x, y) == -g(y, x) && (g(
        x,
        y,
    ) == 0 <==> x == y) by {
        lemma_lex_basic(x, y, f);
    }
    assert forall|x: Seq<T>, y: Seq<T>, z: Seq<T>| #[trigger] g(x, y) < 0 && #[trigger] g(y, z) < 0
        implies g(x, z) < 0 by {
        lemma_lex_trans(x, y, z, f);
    }
}

pub proof fn lemma_byte_order_total()
    ensures
        is_total_order(byte_order()),
{
}

pub proof fn lemma_bytes_order_total()
    ensures
        is_total_order(bytes_order()),
        is_total_order(byte_lists_order()),
{
    lemma_byte_order_total();
    lemma_lex_total(byte_order());
    assert(bytes_order() =~= |x: Seq<u8>, y: Seq<u8>| lex(x, y, byte_order()));
    lemma_lex_total(bytes_order());
    assert(byte_lists_order() =~= |x: Seq<Seq<u8>>, y: Seq<Seq<u8>>| lex(x, y, bytes_order()));
}

pub proof fn lemma_byte_groups_basic(a: Seq<Seq<Seq<u8>>>, b: Seq<Seq<Seq<u8>>>)
    ensures
        -1 <= compare_byte_groups(a, b) <= 1,
        compare_byte_groups(a, b) == -compare_byte_groups(b, a),
        compare_byte_groups(a, b) == 0 <==> a == b,
{
    lemma_bytes_order_total();
    lemma_lex_basic(a, b, byte_lists_order());
}

pub proof fn lemma_byte_groups_trans(a: Seq<Seq<Seq<u8>>>, b: Seq<Seq<Seq<u8>>>, c: Seq<Seq<Seq<u8>>>)
    requires
        compare_byte_groups(a, b) < 0,
        compare_byte_groups(b, c) < 0,
    ensures
        compare_byte_groups(a, c) < 0,
{
    lemma_bytes_order_total();
    lemma_lex_trans(a, b, c, byte_lists_order());
}

pub proof fn lemma_bytes_basic(a: Seq<u8>, b: Seq<u8>)
    ensures
        -1 <= compare_bytes(a, b) <= 1,
        compare_bytes(a, b) == -compare_bytes(b, a),
        compare_bytes(a, b) == 0 <==> a == b,
{
    lemma_byte_order_total();
    lemma_lex_basic(a, b, byte_order());
}

pub proof fn lemma_bytes_trans(a: Seq<u8>, b: Seq<u8>, c: Seq<u8>)
    requires
        compare_bytes(a, b) < 0,
        compare_bytes(b, c) < 0,
    ensures
        compare_bytes(a, c) < 0,
{
    lemma_byte_order_total();
    lemma_lex_trans(a, b, c, byte_order());
}

pub proof fn lemma_arg_basic(a: ArgumentModel, b: ArgumentModel)
    ensures
        -1 <= compare_arg(a, b) <= 1,
        compare_arg(a, b) == -compare_arg(b, a),
        compare_arg(a, b) == 0 <==> a == b,
    decreases a,
{
    if arg_tag(a) == arg_tag(b) {
        match a {
            ArgumentModel::Address(x) => match b {
                ArgumentModel::Address(y) => lemma_bytes_basic(x, y),
                _ => {},
            },
            ArgumentModel::Signer(x) => match b {
                ArgumentModel::Signer(y) => lemma_bytes_basic(x, y),
                _ => {},
            },
            ArgumentModel::Vector(x) => match b {
                ArgumentModel::Vector(y) => lemma_args_basic(x, y),
                _ => {},
            },
            ArgumentModel::Struct(x) => match b {
                ArgumentModel::Struct(y) => lemma_args_basic(x, y),
                _ => {},
            },
            _ => {},
        }
    }
}

pub proof fn lemma_args_basic(a: Seq<ArgumentModel>, b: Seq<ArgumentModel>)
    ensures
        -1 <= compare_args(a, b) <= 1,
        compare_args(a, b) == -compare_args(b, a),
        compare_args(a, b) == 0 <==> a == b,
    decreases a,
{
    if a.len() > 0 && b.len() > 0 {
        lemma_arg_basic(a[0], b[0]);
        lemma_args_basic(a.drop_first(), b.drop_first());
        if compare_args(a, b) == 0 {
            assert(a =~= b) by {
                assert forall|i: int| 0 <= i < a.len() implies a[i] == b[i] by {
                    if i > 0 {
                        assert(a[i] == a.drop_first()[i - 1]);
                        assert(b[i] == b.drop_first()[i - 1]);
                    }
                }
            }
        }
        if a == b {
            assert(a.drop_first() == b.drop_first());
        }
    } else if a.len() == 0 && b.len() == 0 {
        assert(a =~= b);
    }
}

pub proof fn lemma_arg_trans(a: ArgumentModel, b: ArgumentModel, c: ArgumentModel)
    requires
        compare_arg(a, b) < 0,
        compare_arg(b, c) < 0,
    ensures
        compare_arg(a, c) < 0,
    decreases a,
{
    if arg_tag(a) == arg_tag(b) && arg_tag(b) == arg_tag(c) {
        match a {
            ArgumentModel::Address(x) => match b {
                ArgumentModel::Address(y) => match c {
                    ArgumentModel::Address(z) => lemma_bytes_trans(x, y, z),
                    _ => {},
                },
                _ => {},
            },
            ArgumentModel::Signer(x) => match b {
                ArgumentModel::Signer(y) => match c {
                    ArgumentModel::Signer(z) => lemma_bytes_trans(x, y, z),
                    _ => {},
                },
                _ => {},
            },
            ArgumentModel::Vector(x) => match b {
                ArgumentModel::Vector(y) => match c {
                    ArgumentModel::Vector(z) => lemma_args_trans(x, y, z),
                    _ => {},
                },
                _ => {},
            },
            ArgumentModel::Struct(x) => match b {
                ArgumentModel::Struct(y) => match c {
                    ArgumentModel::Struct(z) => lemma_args_trans(x, y, z),
                    _ => {},
                },
                _ => {},
            },
            _ => {},
        }
    }
}

pub proof fn lemma_args_trans(a: Seq<ArgumentModel>, b: Seq<ArgumentModel>, c: Seq<ArgumentModel>)
    requires
        compare_args(a, b) < 0,
        compare_args(b, c) < 0,
    ensures
        compare_args(a, c) < 0,
    decreases a,
{
    if a.len() > 0 && b.len() > 0 && c.len() > 0 {
        lemma_arg_basic(a[0], b[0]);
        lemma_arg_basic(b[0], c[0]);
        lemma_arg_basic(a[0], c[0]);
        let x: int = compare_arg(a[0], b[0]);
        let y: int = compare_arg(b[0], c[0]);
        if x == 0 && y == 0 {
            lemma_args_trans(a.drop_first(), b.drop_first(), c.drop_first());
        } else if x < 0 && y < 0 {
            lemma_arg_trans(a[0], b[0], c[0]);
        }
    }
}

pub proof fn lemma_targ_basic(a: TypeArgumentModel, b: TypeArgumentModel)
    ensures
        -1 <= compare_targ(a, b) <= 1,
        compare_targ(a, b) == -compare_targ(b, a),
        compare_targ(a, b) == 0 <==> a == b,
    decreases a,
{
    if targ_tag(a) == targ_tag(b) {
        match a {
            TypeArgumentModel::Vector(x) => match b {
                TypeArgumentModel::Vector(y) => lemma_targ_basic(*x, *y),
                _ => {},
            },
            TypeArgumentModel::Struct(x) => match b {
                TypeArgumentModel::Struct(y) => lemma_targs_basic(x, y),
                _ => {},
            },
            _ => {},
        }
    }
}

pub proof fn lemma_targs_basic(a: Seq<TypeArgumentModel>, b: Seq<TypeArgumentModel>)
    ensures
        -1 <= compare_targs(a, b) <= 1,
        compare_targs(a, b) == -compare_targs(b, a),
        compare_targs(a, b) == 0 <==> a == b,
    decreases a,
{
    if a.len() > 0 && b.len() > 0 {
        lemma_targ_basic(a[0], b[0]);
        lemma_targs_basic(a.drop_first(), b.drop_first());
        if compare_targs(a, b) == 0 {
            assert(a =~= b) by {
                assert forall|i: int| 0 <= i < a.len() implies a[i] == b[i] by {
                    if i > 0 {
                        assert(a[i] == a.drop_first()[i - 1]);
                        assert(b[i] == b.drop_first()[i - 1]);
                    }
                }
            }
        }
        if a == b {
            assert(a.drop_first() == b.drop_first());
        }
    } else if a.len() == 0 && b.len() == 0 {
        assert(a =~= b);
    }
}

pub proof fn lemma_targ_trans(a: TypeArgumentModel, b: TypeArgumentModel, c: TypeArgumentModel)
    requires
        compare_targ(a, b) < 0,
        compare_targ(b, c) < 0,
    ensures
        compare_targ(a, c) < 0,
    decreases a,
{
    if targ_tag(a) == targ_tag(b) && targ_tag(b) == targ_tag(c) {
        match a {
            TypeArgumentModel::Vector(x) => match b {
                TypeArgumentModel::Vector(y) => match c {
                    TypeArgumentModel::Vector(z) => lemma_targ_trans(*x, *y, *z),
                    _ => {},
                },
                _ => {},
            },
            TypeArgumentModel::Struct(x) => match b {
                TypeArgumentModel::Struct(y) => match c {
                    TypeArgumentModel::Struct(z) => lemma_targs_trans(x, y, z),
                    _ => {},
                },
                _ => {},
            },
            _ => {},
        }
    }
}

pub proof fn lemma_targs_trans(
    a: Seq<TypeArgumentModel>,
    b: Seq<TypeArgumentModel>,
    c: Seq<TypeArgumentModel>,
)
    requires
        compare_targs(a, b) < 0,
        compare_targs(b, c) < 0,
    ensures
        compare_targs(a, c) < 0,
    decreases a,
{
    if a.len() > 0 && b.len() > 0 && c.len() > 0 {
        lemma_targ_basic(a[0], b[0]);
        lemma_targ_basic(b[0], c[0]);
        lemma_targ_basic(a[0], c[0]);
        let x: int = compare_targ(a[0], b[0]);
        let y: int = compare_targ(b[0], c[0]);
        if x == 0 && y == 0 {
            lemma_targs_trans(a.drop_first(), b.drop_first(), c.drop_first());
        } else if x < 0 && y < 0 {
            lemma_targ_trans(a[0], b[0], c[0]);
        }
    }
}

pub proof fn lemma_payload_basic(a: PayloadModel, b: PayloadModel)
    ensures
        -1 <= compare_payload(a, b) <= 1,
        compare_payload(a, b) == -compare_payload(b, a),
        compare_payload(a, b) == 0 <==> a == b,
{
    lemma_bytes_basic(a.address, b.address);
    lemma_bytes_basic(a.label, b.label);
    lemma_args_basic(a.arguments, b.arguments);
    lemma_targs_basic(a.type_arguments, b.type_arguments);
}

pub proof fn lemma_payload_trans(a: PayloadModel, b: PayloadModel, c: PayloadModel)
    requires
        compare_payload(a, b) < 0,
        compare_payload(b, c) < 0,
    ensures
        compare_payload(a, c) < 0,
{
    lemma_payload_basic(a, b);
    lemma_payload_basic(b, c);
    lemma_payload_basic(a, c);
    lemma_bytes_basic(a.address, b.address);
    lemma_bytes_basic(b.address, c.address);
    lemma_bytes_basic(a.label, b.label);
    lemma_bytes_basic(b.label, c.label);
    lemma_args_basic(a.arguments, b.arguments);
    lemma_args_basic(b.arguments, c.arguments);
    lemma_targs_basic(a.type_arguments, b.type_arguments);
    lemma_targs_basic(b.type_arguments, c.type_arguments);
    if compare_bytes(a.address, b.address) < 0 && compare_bytes(b.address, c.address) < 0 {
        lemma_bytes_trans(a.address, b.address, c.address);
    }
    if compare_bytes(a.label, b.label) < 0 && compare_bytes(b.label, c.label) < 0 {
        lemma_bytes_trans(a.label, b.label, c.label);
    }
    if compare_args(a.arguments, b.arguments) < 0 && compare_args(b.arguments, c.arguments) < 0 {
        lemma_args_trans(a.arguments, b.arguments, c.arguments);
    }
    if compare_targs(a.type_arguments, b.type_arguments) < 0 && compare_targs(
        b.type_arguments,
        c.type_arguments,
    ) < 0 {
        lemma_targs_trans(a.type_arguments, b.type_arguments, c.type_arguments);
    }
}

/// The order of transactions is a strict total order in which a tie means
/// equal transactions.
pub proof fn lemma_transaction_order_total()
    ensures
        is_total_order(transaction_order()),
{
    let f = transaction_order();
    assert forall|x: TransactionModel, y: TransactionModel|
        -1 <= #[trigger] f(x, y) <= 1 && f(x, y) == -f(y, x) && (f(x, y) == 0 <==> x == y) by {
        lemma_payload_basic(x.payload, y.payload);
        lemma_byte_groups_basic(x.signers, y.signers);
        lemma_byte_groups_basic(x.signatures, y.signatures);
    }
    assert forall|a: TransactionModel, b: TransactionModel, c: TransactionModel|
        #[trigger] f(a, b) < 0 && #[trigger] f(b, c) < 0 implies f(a, c) < 0 by {
        lemma_payload_basic(a.payload, b.payload);
        lemma_payload_basic(b.payload, c.payload);
        lemma_byte_groups_basic(a.signers, b.signers);
        lemma_byte_groups_basic(b.signers, c.signers);
        lemma_byte_groups_basic(a.signatures, b.signatures);
        lemma_byte_groups_basic(b.signatures, c.signatures);
        if compare_payload(a.payload, b.payload) < 0 && compare_payload(b.payload, c.payload) < 0 {
            lemma_payload_trans(a.payload, b.payload, c.payload);
        }
        if compare_byte_groups(a.signers, b.signers) < 0 && compare_byte_groups(b.signers, c.signers)
            < 0 {
            lemma_byte_groups_trans(a.signers, b.signers, c.signers);
        }
        if compare_byte_groups(a.signatures, b.signatures) < 0 && compare_byte_groups(
            b.signatures,
            c.signatures,
        ) < 0 {
            lemma_byte_groups_trans(a.signatures, b.signatures, c.signatures);
        }
    }
}

/// One step of a lexicographic comparison from position `i`.
pub proof fn lemma_lex_skip<T>(a: Seq<T>, b: Seq<T>, f: spec_fn(T, T) -> int, i: int)
    requires
        0 <= i,
    ensures
        i < a.len() && i < b.len() ==> lex(a.skip(i), b.skip(i), f) == tie_break(
            f(a[i], b[i]),
            lex(a.skip(i + 1), b.skip(i + 1), f),
        ),
        i == a.len() && i <= b.len() ==> lex(a.skip(i), b.skip(i), f) == (if i == b.len() {
            0int
        } else {
            -1int
        }),
        i == b.len() && i < a.len() ==> lex(a.skip(i), b.skip(i), f) == 1,
{
    if i < a.len() && i < b.len() {
        assert(a.skip(i).drop_first() =~= a.skip(i + 1));
        assert(b.skip(i).drop_first() =~= b.skip(i + 1));
    }
}

/// One step of the comparison of argument lists from position `i`.
pub proof fn lemma_args_skip(a: Seq<ArgumentModel>, b: Seq<ArgumentModel>, i: int)
    requires
        0 <= i,
    ensures
        i < a.len() && i < b.len() ==> compare_args(a.skip(i), b.skip(i)) == tie_break(
            compare_arg(a[i], b[i]),
            compare_args(a.skip(i + 1), b.skip(i + 1)),
        ),
        i == a.len() && i <= b.len() ==> compare_args(a.skip(i), b.skip(i)) == (if i == b.len() {
            0int
        } else {
            -1int
        }),
        i == b.len() && i < a.len() ==> compare_args(a.skip(i), b.skip(i)) == 1,
{
    if i < a.len() && i < b.len() {
        assert(a.skip(i).drop_first() =~= a.skip(i + 1));
        assert(b.skip(i).drop_first() =~= b.skip(i + 1));
    }
}

/// One step of the comparison of type argument lists from position `i`.
pub proof fn lemma_targs_skip(a: Seq<TypeArgumentModel>, b: Seq<TypeArgumentModel>, i: int)
    requires
        0 <= i,
    ensures
        i < a.len() && i < b.len() ==> compare_targs(a.skip(i), b.skip(i)) == tie_break(
            compare_targ(a[i], b[i]),
            compare_targs(a.skip(i + 1), b.skip(i + 1)),
        ),
        i == a.len() && i <= b.len() ==> compare_targs(a.skip(i), b.skip(i)) == (if i == b.len() {
            0int
        } else {
            -1int
        }),
        i == b.len() && i < a.len() ==> compare_targs(a.skip(i), b.skip(i)) == 1,
{
    if i < a.len() && i < b.len() {
        assert(a.skip(i).drop_first() =~= a.skip(i + 1));
        assert(b.skip(i).drop_first() =~= b.skip(i + 1));
    }
}

fn order_u128(a: u128, b: u128) -> (r: i8)
    ensures
        r as int == compare_num(a as int, b as int),
{
    if a < b {
        -1
    } else if a == b {
        0
    } else {
        1
    }
}

/// Compares two byte strings lexicographically.
pub fn compare_byte_vecs(a: &Vec<u8>, b: &Vec<u8>) -> (r: i8)
    ensures
        r as int == compare_bytes(a@, b@),
{
    let ghost f = byte_order();
    let n: usize = a.len();
    let m: usize = b.len();
    let mut i: usize = 0;
    assert(a@.skip(0) =~= a@ && b@.skip(0) =~= b@);
    while i < n && i < m
        invariant
            f == byte_order(),
            f == byte_order(),
            n == a@.len(),
            m == b@.len(),
            i <= n,
            i <= m,
            lex(a@, b@, f) == lex(a@.skip(i as int), b@.skip(i as int), f),
        decreases n - i,
    {
        proof {
            lemma_lex_skip(a@, b@, f, i as int);
        }
        let c: i8 = order_u128(a[i] as u128, b[i] as u128);
        if c != 0 {
            return c;
        }
        i = i + 1;
    }
    proof {
        lemma_lex_skip(a@, b@, f, i as int);
    }
    if i == n && i == m {
        0
    } else if i == n {
        -1
    } else {
        1
    }
}

fn compare_address_lists(a: &Vec<Address>, b: &Vec<Address>) -> (r: i8)
    ensures
        r as int == compare_byte_lists(addresses_model(a@), addresses_model(b@)),
{
    let ghost f = bytes_order();
    let ghost x = addresses_model(a@);
    let ghost y = addresses_model(b@);
    let n: usize = a.len();
    let m: usize = b.len();
    let mut i: usize = 0;
    assert(x.skip(0) =~= x && y.skip(0) =~= y);
    while i < n && i < m
        invariant
            f == bytes_order(),
            n == a@.len(),
            m == b@.len(),
            x == addresses_model(a@),
            y == addresses_model(b@),
            i <= n,
            i <= m,
            lex(x, y, f) == lex(x.skip(i as int), y.skip(i as int), f),
        decreases n - i,
    {
        proof {
            lemma_lex_skip(x, y, f, i as int);
        }
        let c: i8 = compare_byte_vecs(&a[i].0, &b[i].0);
        proof {
            assert(x[i as int] == x.skip(i as int)[0]);
            assert(f(x[i as int], y[i as int]) == compare_bytes(x[i as int], y[i as int]));
        }
        if c != 0 {
            return c;
        }
        i = i + 1;
    }
    proof {
        lemma_lex_skip(x, y, f, i as int);
    }
    if i == n && i == m {
        0
    } else if i == n {
        -1
    } else {
        1
    }
}

fn compare_address_groups(a: &Vec<Vec<Address>>, b: &Vec<Vec<Address>>) -> (r: i8)
    ensures
        r as int == compare_byte_groups(address_groups_model(a@), address_groups_model(b@)),
{
    let ghost f = byte_lists_order();
    let ghost x = address_groups_model(a@);
    let ghost y = address_groups_model(b@);
    let n: usize = a.len();
    let m: usize = b.len();
    let mut i: usize = 0;
    assert(x.skip(0) =~= x && y.skip(0) =~= y);
    while i < n && i < m
        invariant
            f == byte_lists_order(),
            n == a@.len(),
            m == b@.len(),
            x == address_groups_model(a@),
            y == address_groups_model(b@),
            i <= n,
            i <= m,
            lex(x, y, f) == lex(x.skip(i as int), y.skip(i as int), f),
        decreases n - i,
    {
        proof {
            lemma_lex_skip(x, y, f, i as int);
        }
        let c: i8 = compare_address_lists(&a[i], &b[i]);
        proof {
            assert(x[i as int] == x.skip(i as int)[0]);
            assert(f(x[i as int], y[i as int]) == compare_byte_lists(x[i as int], y[i as int]));
        }
        if c != 0 {
            return c;
        }
        i = i + 1;
    }
    proof {
        lemma_lex_skip(x, y, f, i as int);
    }
    if i == n && i == m {
        0
    } else if i == n {
        -1
    } else {
        1
    }
}

fn compare_signature_lists(a: &Vec<Signature>, b: &Vec<Signature>) -> (r: i8)
    ensures
        r as int == compare_byte_lists(signatures_model(a@), signatures_model(b@)),
{
    let ghost f = bytes_order();
    let ghost x = signatures_model(a@);
    let ghost y = signatures_model(b@);
    let n: usize = a.len();
    let m: usize = b.len();
    let mut i: usize = 0;
    assert(x.skip(0) =~= x && y.skip(0) =~= y);
    while i < n && i < m
        invariant
            f == bytes_order(),
            n == a@.len(),
            m == b@.len(),
            x == signatures_model(a@),
            y == signatures_model(b@),
            i <= n,
            i <= m,
            lex(x, y, f) == lex(x.skip(i as int), y.skip(i as int), f),
        decreases n - i,
    {
        proof {
            lemma_lex_skip(x, y, f, i as int);
        }
        let c: i8 = compare_byte_vecs(&a[i].0, &b[i].0);
        proof {
            assert(x[i as int] == x.skip(i as int)[0]);
            assert(f(x[i as int], y[i as int]) == compare_bytes(x[i as int], y[i as int]));
        }
        if c != 0 {
            return c;
        }
        i = i + 1;
    }
    proof {
        lemma_lex_skip(x, y, f, i as int);
    }
    if i == n && i == m {
        0
    } else if i == n {
        -1
    } else {
        1
    }
}

fn compare_signature_groups(a: &Vec<Vec<Signature>>, b: &Vec<Vec<Signature>>) -> (r: i8)
    ensures
        r as int == compare_byte_groups(signature_groups_model(a@), signature_groups_model(b@)),
{
    let ghost f = byte_lists_order();
    let ghost x = signature_groups_model(a@);
    let ghost y = signature_groups_model(b@);
    let n: usize = a.len();
    let m: usize = b.len();
    let mut i: usize = 0;
    assert(x.skip(0) =~= x && y.skip(0) =~= y);
    while i < n && i < m
        invariant
            f == byte_lists_order(),
            n == a@.len(),
            m == b@.len(),
            x == signature_groups_model(a@),
            y == signature_groups_model(b@),
            i <= n,
            i <= m,
            lex(x, y, f) == lex(x.skip(i as int), y.skip(i as int), f),
        decreases n - i,
    {
        proof {
            lemma_lex_skip(x, y, f, i as int);
        }
        let c: i8 = compare_signature_lists(&a[i], &b[i]);
        proof {
            assert(x[i as int] == x.skip(i as int)[0]);
            assert(f(x[i as int], y[i as int]) == compare_byte_lists(x[i as int], y[i as int]));
        }
        if c != 0 {
            return c;
        }
        i = i + 1;
    }
    proof {
        lemma_lex_skip(x, y, f, i as int);
    }
    if i == n && i == m {
        0
    } else if i == n {
        -1
    } else {
        1
    }
}

fn argument_tag(a: &Argument) -> (r: u8)
    ensures
        r as int == arg_tag(a@),
{
    match a {
        Argument::U8(_) => 0,
        Argument::U16(_) => 1,
        Argument::U32(_) => 2,
        Argument::U64(_) => 3,
        Argument::U128(_) => 4,
        Argument::Address(_) => 5,
        Argument::Signer(_) => 6,
        Argument::Vector(_) => 7,
        Argument::Struct(_) => 8,
    }
}

fn compare_argument(a: &Argument, b: &Argument) -> (r: i8)
    ensures
        r as int == compare_arg(a@, b@),
    decreases a,
{
    let ta: u8 = argument_tag(a);
    let tb: u8 = argument_tag(b);
    if ta != tb {
        return order_u128(ta as u128, tb as u128);
    }
    match a {
        Argument::U8(x) => match b {
            Argument::U8(y) => order_u128(*x as u128, *y as u128),
            _ => 0,
        },
        Argument::U16(x) => match b {
            Argument::U16(y) => order_u128(*x as u128, *y as u128),
            _ => 0,
        },
        Argument::U32(x) => match b {
            Argument::U32(y) => order_u128(*x as u128, *y as u128),
            _ => 0,
        },
        Argument::U64(x) => match b {
            Argument::U64(y) => order_u128(*x as u128, *y as u128),
            _ => 0,
        },
        Argument::U128(x) => match b {
            Argument::U128(y) => order_u128(*x, *y),
            _ => 0,
        },
        Argument::Address(x) => match b {
            Argument::Address(y) => compare_byte_vecs(&x.0, &y.0),
            _ => 0,
        },
        Argument::Signer(x) => match b {
            Argument::Signer(y) => compare_byte_vecs(&x.0.0, &y.0.0),
            _ => 0,
        },
        Argument::Vector(x) => match b {
            Argument::Vector(y) => compare_argument_vecs(x, y),
            _ => 0,
        },
        Argument::Struct(x) => match b {
            Argument::Struct(y) => compare_argument_vecs(x, y),
            _ => 0,
        },
    }
}

fn compare_argument_vecs(a: &Vec<Argument>, b: &Vec<Argument>) -> (r: i8)
    ensures
        r as int == compare_args(args_model(a@), args_model(b@)),
    decreases a,
{
    let ghost x = args_model(a@);
    let ghost y = args_model(b@);
    let n: usize = a.len();
    let m: usize = b.len();
    let mut i: usize = 0;
    assert(x.skip(0) =~= x && y.skip(0) =~= y);
    while i < n && i < m
        invariant
            n == a@.len(),
            m == b@.len(),
            x == args_model(a@),
            y == args_model(b@),
            i <= n,
            i <= m,
            compare_args(x, y) == compare_args(x.skip(i as int), y.skip(i as int)),
        decreases n - i,
    {
        proof {
            lemma_args_skip(x, y, i as int);
        }
        let c: i8 = compare_argument(&a[i], &b[i]);
        if c != 0 {
            return c;
        }
        i = i + 1;
    }
    proof {
        lemma_args_skip(x, y, i as int);
    }
    if i == n && i == m {
        0
    } else if i == n {
        -1
    } else {
        1
    }
}

fn type_argument_tag(a: &TypeArgument) -> (r: u8)
    ensures
        r as int == targ_tag(a@),
{
    match a {
        TypeArgument::U8 => 0,
        TypeArgument::U16 => 1,
        TypeArgument::U32 => 2,
        TypeArgument::U64 => 3,
        TypeArgument::U128 => 4,
        TypeArgument::Address => 5,
        TypeArgument::Signer => 6,
        TypeArgument::Vector(_) => 7,
        TypeArgument::Struct(_) => 8,
    }
}

fn compare_type_argument(a: &TypeArgument, b: &TypeArgument) -> (r: i8)
    ensures
        r as int == compare_targ(a@, b@),
    decreases a,
{
    let ta: u8 = type_argument_tag(a);
    let tb: u8 = type_argument_tag(b);
    if ta != tb {
        return order_u128(ta as u128, tb as u128);
    }
    match a {
        TypeArgument::Vector(x) => match b {
            TypeArgument::Vector(y) => compare_type_argument(x, y),
            _ => 0,
        },
        TypeArgument::Struct(x) => match b {
            TypeArgument::Struct(y) => compare_type_argument_vecs(x, y),
            _ => 0,
        },
        _ => 0,
    }
}

fn compare_type_argument_vecs(a: &Vec<TypeArgument>, b: &Vec<TypeArgument>) -> (r: i8)
    ensures
        r as int == compare_targs(targs_model(a@), targs_model(b@)),
    decreases a,
{
    let ghost x = targs_model(a@);
    let ghost y = targs_model(b@);
    let n: usize = a.len();
    let m: usize = b.len();
    let mut i: usize = 0;
    assert(x.skip(0) =~= x && y.skip(0) =~= y);
    while i < n && i < m
        invariant
            n == a@.len(),
            m == b@.len(),
            x == targs_model(a@),
            y == targs_model(b@),
            i <= n,
            i <= m,
            compare_targs(x, y) == compare_targs(x.skip(i as int), y.skip(i as int)),
        decreases n - i,
    {
        proof {
            lemma_targs_skip(x, y, i as int);
        }
        let c: i8 = compare_type_argument(&a[i], &b[i]);
        if c != 0 {
            return c;
        }
        i = i + 1;
    }
    proof {
        lemma_targs_skip(x, y, i as int);
    }
    if i == n && i == m {
        0
    } else if i == n {
        -1
    } else {
        1
    }
}

fn compare_execution_payloads(a: &ExecutionPayload, b: &ExecutionPayload) -> (r: i8)
    ensures
        r as int == compare_payload(a@, b@),
{
    let c: i8 = compare_byte_vecs(&a.address.0, &b.address.0);
    if c != 0 {
        return c;
    }
    let c: i8 = compare_byte_vecs(&a.label.0, &b.label.0);
    if c != 0 {
        return c;
    }
    let c: i8 = compare_argument_vecs(&a.arguments, &b.arguments);
    if c != 0 {
        return c;
    }
    compare_type_argument_vecs(&a.type_arguments, &b.type_arguments)
}

impl Transaction {
    /// Three-way comparison in the order of transactions: `-1` when `self`
    /// comes first, `0` when the two are equal, `1` when `other` comes first.
    pub fn compare(&self, other: &Transaction) -> (r: i8)
        ensures
            r as int == compare_transaction(self@, other@),
            r == 0 <==> self@ == other@,
    {
        proof {
            lemma_transaction_order_total();
            assert(transaction_order()(self@, other@) == compare_transaction(self@, other@));
        }
        let c: i8 = order_u128(self.timestamp as u128, other.timestamp as u128);
        if c != 0 {
            return c;
        }
        let c: i8 = order_u128(self.nonce as u128, other.nonce as u128);
        if c != 0 {
            return c;
        }
        let c: i8 = match &self.payload {
            TransactionPayload::ExecutionPayload(p) => match &other.payload {
                TransactionPayload::ExecutionPayload(q) => compare_execution_payloads(p, q),
            },
        };
        if c != 0 {
            return c;
        }
        let c: i8 = compare_address_groups(&self.signers, &other.signers);
        if c != 0 {
            return c;
        }
        compare_signature_groups(&self.signatures, &other.signatures)
    }
}

/// Range, antisymmetry and the meaning of a tie for the order of
/// transactions, stated for two given transactions.
pub proof fn lemma_transaction_basic(a: TransactionModel, b: TransactionModel)
    ensures
        -1 <= compare_transaction(a, b) <= 1,
        compare_transaction(a, b) == -compare_transaction(b, a),
        compare_transaction(a, b) == 0 <==> a == b,
{
    lemma_transaction_order_total();
    let f = transaction_order();
    assert(f(a, b) == compare_transaction(a, b));
    assert(f(b, a) == compare_transaction(b, a));
}

/// Transitivity of the order of transactions, stated for three given
/// transactions.
pub proof fn lemma_transaction_trans(a: TransactionModel, b: TransactionModel, c: TransactionModel)
    requires
        compare_transaction(a, b) < 0,
        compare_transaction(b, c) < 0,
    ensures
        compare_transaction(a, c) < 0,
{
    lemma_transaction_order_total();
    let f = transaction_order();
    assert(f(a, b) == compare_transaction(a, b));
    assert(f(b, c) == compare_transaction(b, c));
    assert(f(a, c) == compare_transaction(a, c));
}

/// The order of characters: by code point.
pub open spec fn char_order() -> spec_fn(char, char) -> int {
    |x: char, y: char| compare_num(x as int, y as int)
}

/// Lexicographic comparison of two texts, character by character. On
/// UTF-8 strings this is the order of their bytes.
pub open spec fn compare_text(a: Seq<char>, b: Seq<char>) -> int {
    lex(a, b, char_order())
}

/// Lexicographic comparison of two ascending lists of transactions.
pub open spec fn compare_transaction_lists(a: Seq<TransactionModel>, b: Seq<TransactionModel>) -> int {
    lex(a, b, transaction_order())
}

/// The order of blocks: by time, slot, transactions, nonce, previous hash
/// and hash, in that order of precedence.
pub open spec fn compare_block(a: BlockModel, b: BlockModel) -> int {
    tie_break(
        compare_num(a.timestamp as int, b.timestamp as int),
        tie_break(
            compare_num(a.slot_number as int, b.slot_number as int),
            tie_break(
                compare_transaction_lists(a.transactions, b.transactions),
                tie_break(
                    compare_num(a.nonce as int, b.nonce as int),
                    tie_break(
                        compare_text(a.previous_hash, b.previous_hash),
                        compare_text(a.hash, b.hash),
                    ),
                ),
            ),
        ),
    )
}

proof fn lemma_char_and_transaction_lists_total()
    ensures
        is_total_order(char_order()),
        is_total_order(transaction_order()),
        forall|a: Seq<char>, b: Seq<char>|
            -1 <= #[trigger] compare_text(a, b) <= 1 && compare_text(a, b) == -compare_text(b, a)
                && (compare_text(a, b) == 0 <==> a == b),
        forall|a: Seq<TransactionModel>, b: Seq<TransactionModel>|
            -1 <= #[trigger] compare_transaction_lists(a, b) <= 1 && compare_transaction_lists(a, b)
                == -compare_transaction_lists(b, a) && (compare_transaction_lists(a, b) == 0 <==> a == b),
{
    lemma_transaction_order_total();
    assert forall|a: Seq<char>, b: Seq<char>|
        -1 <= #[trigger] compare_text(a, b) <= 1 && compare_text(a, b) == -compare_text(b, a) && (
        compare_text(a, b) == 0 <==> a == b) by {
        lemma_lex_basic(a, b, char_order());
    }
    assert forall|a: Seq<TransactionModel>, b: Seq<TransactionModel>|
        -1 <= #[trigger] compare_transaction_lists(a, b) <= 1 && compare_transaction_lists(a, b)
            == -compare_transaction_lists(b, a) && (compare_transaction_lists(a, b) == 0 <==> a
            == b) by {
        lemma_lex_basic(a, b, transaction_order());
    }
}

/// Range, antisymmetry and the meaning of a tie for the order of blocks.
pub proof fn lemma_block_basic(a: BlockModel, b: BlockModel)
    ensures
        -1 <= compare_block(a, b) <= 1,
        compare_block(a, b) == -compare_block(b, a),
        compare_block(a, b) == 0 <==> a == b,
{
    lemma_char_and_transaction_lists_total();
    assert(-1 <= compare_text(a.hash, b.hash) <= 1);
    assert(-1 <= compare_text(a.previous_hash, b.previous_hash) <= 1);
    assert(-1 <= compare_transaction_lists(a.transactions, b.transactions) <= 1);
}

/// Transitivity of the order of blocks.
pub proof fn lemma_block_trans(a: BlockModel, b: BlockModel, c: BlockModel)
    requires
        compare_block(a, b) < 0,
        compare_block(b, c) < 0,
    ensures
        compare_block(a, c) < 0,
{
    lemma_char_and_transaction_lists_total();
    assert(-1 <= compare_text(a.hash, b.hash) <= 1);
    assert(-1 <= compare_text(b.hash, c.hash) <= 1);
    assert(-1 <= compare_text(a.previous_hash, b.previous_hash) <= 1);
    assert(-1 <= compare_text(b.previous_hash, c.previous_hash) <= 1);
    assert(-1 <= compare_transaction_lists(a.transactions, b.transactions) <= 1);
    assert(-1 <= compare_transaction_lists(b.transactions, c.transactions) <= 1);
    assert(compare_text(a.hash, c.hash) == compare_text(a.hash, c.hash));
    assert(compare_text(a.previous_hash, c.previous_hash) == compare_text(a.previous_hash, c.previous_hash));
    assert(compare_transaction_lists(a.transactions, c.transactions) == compare_transaction_lists(a.transactions, c.transactions));
    if compare_text(a.hash, b.hash) < 0 && compare_text(b.hash, c.hash) < 0 {
        lemma_lex_trans(a.hash, b.hash, c.hash, char_order());
    }
    if compare_text(a.previous_hash, b.previous_hash) < 0 && compare_text(b.previous_hash, c.previous_hash) < 0 {
        lemma_lex_trans(a.previous_hash, b.previous_hash, c.previous_hash, char_order());
    }
    if compare_transaction_lists(a.transactions, b.transactions) < 0 && compare_transaction_lists(
        b.transactions,
        c.transactions,
    ) < 0 {
        lemma_lex_trans(a.transactions, b.transactions, c.transactions, transaction_order());
    }
}

fn char_code(c: char) -> (r: u32)
    ensures
        r as int == c as int,
{
    c as u32
}

fn compare_texts(a: &String, b: &String) -> (r: i8)
    ensures
        r as int == compare_text(a@, b@),
{
    let ghost f = char_order();
    let n: usize = a.as_str().unicode_len();
    let m: usize = b.as_str().unicode_len();
    let mut i: usize = 0;
    assert(a@.skip(0) =~= a@ && b@.skip(0) =~= b@);
    while i < n && i < m
        invariant
            f == char_order(),
            n == a@.len(),
            m == b@.len(),
            i <= n,
            i <= m,
            lex(a@, b@, f) == lex(a@.skip(i as int), b@.skip(i as int), f),
        decreases n - i,
    {
        proof {
            lemma_lex_skip(a@, b@, f, i as int);
        }
        let x: u32 = char_code(a.as_str().get_char(i));
        let y: u32 = char_code(b.as_str().get_char(i));
        let c: i8 = order_u128(x as u128, y as u128);
        if c != 0 {
            return c;
        }
        i = i + 1;
    }
    proof {
        lemma_lex_skip(a@, b@, f, i as int);
    }
    if i == n && i == m {
        0
    } else if i == n {
        -1
    } else {
        1
    }
}

fn compare_transaction_sets(a: &super::txset::TransactionSet, b: &super::txset::TransactionSet) -> (r: i8)
    ensures
        r as int == compare_transaction_lists(a@, b@),
{
    let ghost f = transaction_order();
    let n: usize = a.len();
    let m: usize = b.len();
    let mut i: usize = 0;
    assert(a@.skip(0) =~= a@ && b@.skip(0) =~= b@);
    while i < n && i < m
        invariant
            f == transaction_order(),
            n == a@.len(),
            m == b@.len(),
            i <= n,
            i <= m,
            lex(a@, b@, f) == lex(a@.skip(i as int), b@.skip(i as int), f),
        decreases n - i,
    {
        proof {
            lemma_lex_skip(a@, b@, f, i as int);
        }
        let c: i8 = a.get(i).compare(b.get(i));
        if c != 0 {
            return c;
        }
        i = i + 1;
    }
    proof {
        lemma_lex_skip(a@, b@, f, i as int);
    }
    if i == n && i == m {
        0
    } else if i == n {
        -1
    } else {
        1
    }
}

impl Block {
    /// Three-way comparison in the order of blocks: `-1` when `self` comes
    /// first, `0` when the two are equal, `1` when `other` comes first.
    pub fn compare(&self, other: &Block) -> (r: i8)
        ensures
            r as int == compare_block(self@, other@),
            r == 0 <==> self@ == other@,
    {
        proof {
            lemma_block_basic(self@, other@);
        }
        let c: i8 = order_u128(self.timestamp as u128, other.timestamp as u128);
        if c != 0 {
            return c;
        }
        let c: i8 = order_u128(self.slot_number as u128, other.slot_number as u128);
        if c != 0 {
            return c;
        }
        let c: i8 = compare_transaction_sets(&self.transactions, &other.transactions);
        if c != 0 {
            return c;
        }
        let c: i8 = order_u128(self.nonce as u128, other.nonce as u128);
        if c != 0 {
            return c;
        }
        let c: i8 = compare_texts(&self.previous_hash, &other.previous_hash);
        if c != 0 {
            return c;
        }
        compare_texts(&self.hash, &other.hash)
    }
}

} // verus!
