//! General properties of the scan, proved once and for all over the model:
//! determinism, idempotence of the table-derived artifacts, the shape of
//! every matched value, the cause behind every failure, and the operand
//! tail.

use vstd::prelude::*;
use crate::getopt_long::HasArg;
use crate::model::{
    ArgsModel, ErrModel, OptModel, find_long_from, find_short_from, identity_of, is_long_token,
    is_separator, is_short_token, long_specs_of, scan_cluster, scan_from, scan_long, scan_spec,
    short_spec_of,
};

verus! {

/// Determinism: one table and one token list have exactly one scan outcome,
/// so any two results of scanning the same inputs agree.
pub proof fn lemma_scan_deterministic(
    table: Seq<OptModel>,
    toks: Seq<Seq<char>>,
    r1: Result<ArgsModel, ErrModel>,
    r2: Result<ArgsModel, ErrModel>,
)
    requires
        r1 == scan_spec(table, toks),
        r2 == scan_spec(table, toks),
    ensures
        r1 == r2,
{
}

/// Idempotence of the table-derived artifacts: an unmodified table yields
/// the same short-option specification string and the same long-option
/// descriptors each time they are derived.
pub proof fn lemma_artifacts_idempotent(
    table: Seq<OptModel>,
    a1: (Seq<char>, Seq<(Seq<char>, HasArg)>),
    a2: (Seq<char>, Seq<(Seq<char>, HasArg)>),
)
    requires
        a1 == (short_spec_of(table), long_specs_of(table)),
        a2 == (short_spec_of(table), long_specs_of(table)),
    ensures
        a1 == a2,
{
}

/// A matched value agrees with the declared arity: no value for a
/// no-argument option, always a value for a required-argument one, either
/// for an optional one.
pub open spec fn value_shape_ok(h: HasArg, v: Option<Seq<char>>) -> bool {
    match h {
        HasArg::NoArgument => v is None,
        HasArg::RequiredArgument => v is Some,
        HasArg::OptionalArgument => true,
    }
}

/// Every key of the matched mapping is the identity of some table entry,
/// and its value has the shape that entry's arity allows.
pub open spec fn shape_consistent(
    table: Seq<OptModel>,
    m: Map<Seq<char>, Option<Seq<char>>>,
) -> bool {
    forall|key: Seq<char>| #[trigger]
        m.dom().contains(key) ==> exists|k: int|
            0 <= k < table.len() && identity_of(#[trigger] table[k]) == key && value_shape_ok(
                table[k].has_arg,
                m[key],
            )
}

/// A successful long-name lookup returns a table entry carrying that name.
proof fn lemma_find_long_member(t: Seq<OptModel>, name: Seq<char>, k: int)
    requires
        find_long_from(t, name, k) is Some,
    ensures
        exists|idx: int|
            0 <= idx < t.len() && #[trigger] t[idx] == find_long_from(t, name, k)->0 && t[
                idx
            ].long_name == Some(name),
    decreases t.len() - k,
{
    if 0 <= k < t.len() {
        if t[k].long_name == Some(name) {
            assert(t[k] == find_long_from(t, name, k)->0);
        } else {
            lemma_find_long_member(t, name, k + 1);
        }
    }
}

/// A successful short-letter lookup returns a table entry carrying that
/// letter.
proof fn lemma_find_short_member(t: Seq<OptModel>, c: char, k: int)
    requires
        find_short_from(t, c, k) is Some,
    ensures
        exists|idx: int|
            0 <= idx < t.len() && #[trigger] t[idx] == find_short_from(t, c, k)->0 && t[
                idx
            ].short_name == Some(c),
    decreases t.len() - k,
{
    if 0 <= k < t.len() {
        if t[k].short_name == Some(c) {
            assert(t[k] == find_short_from(t, c, k)->0);
        } else {
            lemma_find_short_member(t, c, k + 1);
        }
    }
}

/// Recording a match of table entry `m` with a value of the right shape
/// keeps the whole mapping shape-consistent.
proof fn lemma_shape_insert(
    table: Seq<OptModel>,
    acc: Map<Seq<char>, Option<Seq<char>>>,
    m: OptModel,
    v: Option<Seq<char>>,
)
    requires
        shape_consistent(table, acc),
        exists|idx: int| 0 <= idx < table.len() && #[trigger] table[idx] == m,
        value_shape_ok(m.has_arg, v),
    ensures
        shape_consistent(table, acc.insert(identity_of(m), v)),
{
    let acc2 = acc.insert(identity_of(m), v);
    assert forall|key: Seq<char>| #[trigger] acc2.dom().contains(key) implies exists|k: int|
        0 <= k < table.len() && identity_of(#[trigger] table[k]) == key && value_shape_ok(
            table[k].has_arg,
            acc2[key],
        ) by {
        if key == identity_of(m) {
            let idx = choose|idx: int| 0 <= idx < table.len() && #[trigger] table[idx] == m;
            assert(identity_of(table[idx]) == key && value_shape_ok(table[idx].has_arg, acc2[key]));
        } else {
            assert(acc.dom().contains(key));
            let k = choose|k: int|
                0 <= k < table.len() && identity_of(#[trigger] table[k]) == key && value_shape_ok(
                    table[k].has_arg,
                    acc[key],
                );
            assert(identity_of(table[k]) == key && value_shape_ok(table[k].has_arg, acc2[key]));
        }
    }
}

/// Every option a successful scan records has an arity-consistent value
/// shape, whatever cursor position and whatever consistent matches the scan
/// starts from.
pub proof fn lemma_scan_from_shapes(
    table: Seq<OptModel>,
    toks: Seq<Seq<char>>,
    i: int,
    acc: Map<Seq<char>, Option<Seq<char>>>,
)
    requires
        shape_consistent(table, acc),
    ensures
        scan_from(table, toks, i, acc) matches Ok(a) ==> shape_consistent(table, a.matched),
    decreases toks.len() - i, 1int, 0int,
{
    if 0 <= i < toks.len() {
        let t = toks[i];
        if is_separator(t) {
        } else if is_long_token(t) {
            lemma_scan_long_shapes(table, toks, i, acc);
        } else if is_short_token(t) {
            lemma_scan_cluster_shapes(table, toks, i, 1, acc);
        }
    }
}

proof fn lemma_scan_long_shapes(
    table: Seq<OptModel>,
    toks: Seq<Seq<char>>,
    i: int,
    acc: Map<Seq<char>, Option<Seq<char>>>,
)
    requires
        shape_consistent(table, acc),
        0 <= i < toks.len(),
    ensures
        scan_long(table, toks, i, acc) matches Ok(a) ==> shape_consistent(table, a.matched),
    decreases toks.len() - i, 0int, 0int,
{
    let t = toks[i];
    let e = crate::model::first_eq_from(t, 2);
    let name = t.subrange(2, e);
    let has_inline = e < t.len();
    match crate::model::find_long(table, name) {
        None => {},
        Some(m) => {
            lemma_find_long_member(table, name, 0);
            match m.has_arg {
                HasArg::NoArgument => {
                    if !has_inline {
                        lemma_shape_insert(table, acc, m, None);
                        lemma_scan_from_shapes(table, toks, i + 1, acc.insert(identity_of(m), None));
                    }
                },
                HasArg::RequiredArgument => {
                    if has_inline {
                        let v = Some(t.subrange(e + 1, t.len() as int));
                        lemma_shape_insert(table, acc, m, v);
                        lemma_scan_from_shapes(table, toks, i + 1, acc.insert(identity_of(m), v));
                    } else if i + 1 < toks.len() && !is_separator(toks[i + 1]) {
                        let v = Some(toks[i + 1]);
                        lemma_shape_insert(table, acc, m, v);
                        lemma_scan_from_shapes(table, toks, i + 2, acc.insert(identity_of(m), v));
                    }
                },
                HasArg::OptionalArgument => {
                    let v = if has_inline {
                        Some(t.subrange(e + 1, t.len() as int))
                    } else {
                        None
                    };
                    lemma_shape_insert(table, acc, m, v);
                    lemma_scan_from_shapes(table, toks, i + 1, acc.insert(identity_of(m), v));
                },
            }
        },
    }
}

proof fn lemma_scan_cluster_shapes(
    table: Seq<OptModel>,
    toks: Seq<Seq<char>>,
    i: int,
    j: int,
    acc: Map<Seq<char>, Option<Seq<char>>>,
)
    requires
        shape_consistent(table, acc),
        0 <= i < toks.len(),
    ensures
        scan_cluster(table, toks, i, j, acc) matches Ok(a) ==> shape_consistent(table, a.matched),
    decreases toks.len() - i, 0int, toks[i].len() - j,
{
    let t = toks[i];
    if j < 1 || j >= t.len() {
        lemma_scan_from_shapes(table, toks, i + 1, acc);
    } else {
        let c = t[j];
        match crate::model::find_short(table, c) {
            None => {},
            Some(m) => {
                lemma_find_short_member(table, c, 0);
                match m.has_arg {
                    HasArg::NoArgument => {
                        lemma_shape_insert(table, acc, m, None);
                        lemma_scan_cluster_shapes(
                            table,
                            toks,
                            i,
                            j + 1,
                            acc.insert(identity_of(m), None),
                        );
                    },
                    HasArg::RequiredArgument => {
                        if j + 1 < t.len() {
                            let v = Some(t.subrange(j + 1, t.len() as int));
                            lemma_shape_insert(table, acc, m, v);
                            lemma_scan_from_shapes(
                                table,
                                toks,
                                i + 1,
                                acc.insert(identity_of(m), v),
                            );
                        } else if i + 1 < toks.len() {
                            let v = Some(toks[i + 1]);
                            lemma_shape_insert(table, acc, m, v);
                            lemma_scan_from_shapes(
                                table,
                                toks,
                                i + 2,
                                acc.insert(identity_of(m), v),
                            );
                        }
                    },
                    HasArg::OptionalArgument => {
                        let v = if j + 1 < t.len() {
                            Some(t.subrange(j + 1, t.len() as int))
                        } else {
                            None
                        };
                        lemma_shape_insert(table, acc, m, v);
                        lemma_scan_from_shapes(table, toks, i + 1, acc.insert(identity_of(m), v));
                    },
                }
            },
        }
    }
}

/// Every option a successful full scan records has an arity-consistent
/// value shape.
pub proof fn lemma_scan_shapes(table: Seq<OptModel>, toks: Seq<Seq<char>>)
    ensures
        scan_spec(table, toks) matches Ok(a) ==> shape_consistent(table, a.matched),
{
    lemma_scan_from_shapes(table, toks, 1, Map::empty());
}

/// What an `InvalidOption` error can name: a long token whose name the
/// table lacks, or a `-` followed by a short letter the table lacks. A
/// token list free of unknown options can therefore never fail this way.
pub open spec fn invalid_option_cause(table: Seq<OptModel>, s: Seq<char>) -> bool {
    ||| (is_long_token(s) && crate::model::find_long(
        table,
        s.subrange(2, crate::model::first_eq_from(s, 2)),
    ) is None)
    ||| (s.len() == 2 && s[0] == '-' && crate::model::find_short(table, s[1]) is None)
}

/// What a `MissingOptionArgument` error can name: a long token without an
/// inline `=value` whose name the table declares with a required argument,
/// or a `-` plus a short letter the table declares with a required
/// argument.
pub open spec fn missing_argument_cause(table: Seq<OptModel>, s: Seq<char>) -> bool {
    ||| (is_long_token(s) && crate::model::first_eq_from(s, 2) >= s.len()
        && crate::model::find_long(table, s.subrange(2, s.len() as int)) is Some
        && crate::model::find_long(table, s.subrange(2, s.len() as int))->0.has_arg
        == HasArg::RequiredArgument)
    ||| (s.len() == 2 && s[0] == '-' && crate::model::find_short(table, s[1]) is Some
        && crate::model::find_short(table, s[1])->0.has_arg == HasArg::RequiredArgument)
}

/// What an `UnexpectedArgument` error can name: a long token carrying an
/// inline `=value` whose name the table declares as taking no argument.
pub open spec fn unexpected_argument_cause(table: Seq<OptModel>, s: Seq<char>) -> bool {
    &&& is_long_token(s)
    &&& crate::model::first_eq_from(s, 2) < s.len()
    &&& crate::model::find_long(table, s.subrange(2, crate::model::first_eq_from(s, 2))) is Some
    &&& crate::model::find_long(
        table,
        s.subrange(2, crate::model::first_eq_from(s, 2)),
    )->0.has_arg == HasArg::NoArgument
}

/// Every failure has its cause in the tokens and the table: an unknown
/// option, a required argument that the input cannot supply, or an inline
/// value forced on a no-argument option. A token list offering none of
/// these causes therefore scans successfully.
pub open spec fn failure_cause(table: Seq<OptModel>, e: ErrModel) -> bool {
    match e {
        ErrModel::InvalidOption(s) => invalid_option_cause(table, s),
        ErrModel::MissingOptionArgument(s) => missing_argument_cause(table, s),
        ErrModel::UnexpectedArgument(s) => unexpected_argument_cause(table, s),
    }
}

/// Every failure names its cause, from whatever cursor position the scan
/// runs.
pub proof fn lemma_scan_from_failure_cause(
    table: Seq<OptModel>,
    toks: Seq<Seq<char>>,
    i: int,
    acc: Map<Seq<char>, Option<Seq<char>>>,
)
    ensures
        scan_from(table, toks, i, acc) matches Err(e) ==> failure_cause(table, e),
    decreases toks.len() - i, 1int, 0int,
{
    if 0 <= i < toks.len() {
        let t = toks[i];
        if is_separator(t) {
        } else if is_long_token(t) {
            lemma_scan_long_failure_cause(table, toks, i, acc);
        } else if is_short_token(t) {
            lemma_scan_cluster_failure_cause(table, toks, i, 1, acc);
        }
    }
}

proof fn lemma_scan_long_failure_cause(
    table: Seq<OptModel>,
    toks: Seq<Seq<char>>,
    i: int,
    acc: Map<Seq<char>, Option<Seq<char>>>,
)
    requires
        0 <= i < toks.len(),
        is_long_token(toks[i]),
    ensures
        scan_long(table, toks, i, acc) matches Err(e) ==> failure_cause(table, e),
    decreases toks.len() - i, 0int, 0int,
{
    let t = toks[i];
    let e = crate::model::first_eq_from(t, 2);
    crate::model::lemma_first_eq_bounds(t, 2);
    let name = t.subrange(2, e);
    let has_inline = e < t.len();
    match crate::model::find_long(table, name) {
        None => {
            assert(invalid_option_cause(table, t));
        },
        Some(m) => {
            match m.has_arg {
                HasArg::NoArgument => {
                    if !has_inline {
                        lemma_scan_from_failure_cause(
                            table,
                            toks,
                            i + 1,
                            acc.insert(identity_of(m), None),
                        );
                    } else {
                        assert(unexpected_argument_cause(table, t));
                    }
                },
                HasArg::RequiredArgument => {
                    if has_inline {
                        lemma_scan_from_failure_cause(
                            table,
                            toks,
                            i + 1,
                            acc.insert(identity_of(m), Some(t.subrange(e + 1, t.len() as int))),
                        );
                    } else if i + 1 < toks.len() && !is_separator(toks[i + 1]) {
                        lemma_scan_from_failure_cause(
                            table,
                            toks,
                            i + 2,
                            acc.insert(identity_of(m), Some(toks[i + 1])),
                        );
                    } else {
                        assert(missing_argument_cause(table, t));
                    }
                },
                HasArg::OptionalArgument => {
                    lemma_scan_from_failure_cause(
                        table,
                        toks,
                        i + 1,
                        acc.insert(
                            identity_of(m),
                            if has_inline {
                                Some(t.subrange(e + 1, t.len() as int))
                            } else {
                                None
                            },
                        ),
                    );
                },
            }
        },
    }
}

proof fn lemma_scan_cluster_failure_cause(
    table: Seq<OptModel>,
    toks: Seq<Seq<char>>,
    i: int,
    j: int,
    acc: Map<Seq<char>, Option<Seq<char>>>,
)
    requires
        0 <= i < toks.len(),
    ensures
        scan_cluster(table, toks, i, j, acc) matches Err(e) ==> failure_cause(table, e),
    decreases toks.len() - i, 0int, toks[i].len() - j,
{
    let t = toks[i];
    if j < 1 || j >= t.len() {
        lemma_scan_from_failure_cause(table, toks, i + 1, acc);
    } else {
        let c = t[j];
        match crate::model::find_short(table, c) {
            None => {
                assert(seq!['-', c].len() == 2 && seq!['-', c][0] == '-' && seq!['-', c][1] == c);
                assert(invalid_option_cause(table, seq!['-', c]));
            },
            Some(m) => {
                match m.has_arg {
                    HasArg::NoArgument => {
                        lemma_scan_cluster_failure_cause(
                            table,
                            toks,
                            i,
                            j + 1,
                            acc.insert(identity_of(m), None),
                        );
                    },
                    HasArg::RequiredArgument => {
                        if j + 1 < t.len() {
                            lemma_scan_from_failure_cause(
                                table,
                                toks,
                                i + 1,
                                acc.insert(identity_of(m), Some(t.subrange(j + 1, t.len() as int))),
                            );
                        } else if i + 1 < toks.len() {
                            lemma_scan_from_failure_cause(
                                table,
                                toks,
                                i + 2,
                                acc.insert(identity_of(m), Some(toks[i + 1])),
                            );
                        } else {
                            assert(seq!['-', c].len() == 2 && seq!['-', c][0] == '-' && seq![
                                '-',
                                c,
                            ][1] == c);
                            assert(missing_argument_cause(table, seq!['-', c]));
                        }
                    },
                    HasArg::OptionalArgument => {
                        lemma_scan_from_failure_cause(
                            table,
                            toks,
                            i + 1,
                            acc.insert(
                                identity_of(m),
                                if j + 1 < t.len() {
                                    Some(t.subrange(j + 1, t.len() as int))
                                } else {
                                    None
                                },
                            ),
                        );
                    },
                }
            },
        }
    }
}

/// A full scan fails only for cause: an unknown option, a required
/// argument the input cannot supply, or an inline value forced on a
/// no-argument option. With none of these among the tokens, scanning
/// succeeds.
pub proof fn lemma_scan_failure_cause(table: Seq<OptModel>, toks: Seq<Seq<char>>)
    ensures
        scan_spec(table, toks) matches Err(e) ==> failure_cause(table, e),
{
    lemma_scan_from_failure_cause(table, toks, 1, Map::empty());
}

/// A bare token: neither an option form nor the separator.
pub open spec fn is_bare_token(t: Seq<char>) -> bool {
    !is_separator(t) && !is_long_token(t) && !is_short_token(t)
}

/// Scanning stopped at position `j`: the operands are exactly the tokens
/// from `j` to the end, in original order; when any are left, the stop was
/// the separator `--` just before them or the bare token at `j`; and no
/// token from the stop on contributes to the matched mapping, since
/// rescanning there with the final matches returns the result unchanged.
pub open spec fn operand_suffix_at(
    table: Seq<OptModel>,
    toks: Seq<Seq<char>>,
    j: int,
    a: ArgsModel,
) -> bool {
    &&& 0 <= j <= toks.len()
    &&& a.operands == toks.subrange(j, toks.len() as int)
    &&& if a.operands.len() == 0 {
        scan_from(table, toks, toks.len() as int, a.matched) == Ok::<ArgsModel, ErrModel>(a)
    } else {
        ||| (j >= 1 && is_separator(toks[j - 1]) && scan_from(table, toks, j - 1, a.matched)
            == Ok::<ArgsModel, ErrModel>(a))
        ||| (is_bare_token(toks[j]) && scan_from(table, toks, j, a.matched) == Ok::<
            ArgsModel,
            ErrModel,
        >(a))
    }
}

/// The operand tail of a successful scan from any position is a contiguous
/// suffix of the tokens: once a bare token or the separator is met, every
/// later token is an operand, in original relative order, and none of them
/// is matched as an option.
pub proof fn lemma_scan_from_operand_tail(
    table: Seq<OptModel>,
    toks: Seq<Seq<char>>,
    i: int,
    acc: Map<Seq<char>, Option<Seq<char>>>,
)
    ensures
        scan_from(table, toks, i, acc) matches Ok(a) ==> exists|j: int| #[trigger] operand_suffix_at(
            table,
            toks,
            j,
            a,
        ),
    decreases toks.len() - i, 1int, 0int,
{
    if i < 0 || i >= toks.len() {
        match scan_from(table, toks, i, acc) {
            Ok(a) => {
                assert(a.operands =~= toks.subrange(toks.len() as int, toks.len() as int));
                assert(operand_suffix_at(table, toks, toks.len() as int, a));
            },
            Err(_) => {},
        }
    } else {
        let t = toks[i];
        if is_separator(t) {
            match scan_from(table, toks, i, acc) {
                Ok(a) => {
                    if a.operands.len() == 0 {
                        assert(a.operands =~= toks.subrange(
                            toks.len() as int,
                            toks.len() as int,
                        ));
                        assert(i + 1 == toks.len());
                        assert(a.operands =~= Seq::<Seq<char>>::empty());
                        assert(scan_from(table, toks, toks.len() as int, a.matched) == Ok::<
                            ArgsModel,
                            ErrModel,
                        >(a));
                        assert(operand_suffix_at(table, toks, toks.len() as int, a));
                    } else {
                        assert(operand_suffix_at(table, toks, i + 1, a));
                    }
                },
                Err(_) => {},
            }
        } else if is_long_token(t) {
            lemma_scan_long_operand_tail(table, toks, i, acc);
        } else if is_short_token(t) {
            lemma_scan_cluster_operand_tail(table, toks, i, 1, acc);
        } else {
            match scan_from(table, toks, i, acc) {
                Ok(a) => {
                    assert(is_bare_token(toks[i]));
                    assert(operand_suffix_at(table, toks, i, a));
                },
                Err(_) => {},
            }
        }
    }
}

proof fn lemma_scan_long_operand_tail(
    table: Seq<OptModel>,
    toks: Seq<Seq<char>>,
    i: int,
    acc: Map<Seq<char>, Option<Seq<char>>>,
)
    requires
        0 <= i < toks.len(),
    ensures
        scan_long(table, toks, i, acc) matches Ok(a) ==> exists|j: int| #[trigger] operand_suffix_at(
            table,
            toks,
            j,
            a,
        ),
    decreases toks.len() - i, 0int, 0int,
{
    let t = toks[i];
    let e = crate::model::first_eq_from(t, 2);
    let name = t.subrange(2, e);
    let has_inline = e < t.len();
    match crate::model::find_long(table, name) {
        None => {},
        Some(m) => {
            match m.has_arg {
                HasArg::NoArgument => {
                    if !has_inline {
                        lemma_scan_from_operand_tail(
                            table,
                            toks,
                            i + 1,
                            acc.insert(identity_of(m), None),
                        );
                    }
                },
                HasArg::RequiredArgument => {
                    if has_inline {
                        lemma_scan_from_operand_tail(
                            table,
                            toks,
                            i + 1,
                            acc.insert(identity_of(m), Some(t.subrange(e + 1, t.len() as int))),
                        );
                    } else if i + 1 < toks.len() && !is_separator(toks[i + 1]) {
                        lemma_scan_from_operand_tail(
                            table,
                            toks,
                            i + 2,
                            acc.insert(identity_of(m), Some(toks[i + 1])),
                        );
                    }
                },
                HasArg::OptionalArgument => {
                    lemma_scan_from_operand_tail(
                        table,
                        toks,
                        i + 1,
                        acc.insert(
                            identity_of(m),
                            if has_inline {
                                Some(t.subrange(e + 1, t.len() as int))
                            } else {
                                None
                            },
                        ),
                    );
                },
            }
        },
    }
}

proof fn lemma_scan_cluster_operand_tail(
    table: Seq<OptModel>,
    toks: Seq<Seq<char>>,
    i: int,
    j: int,
    acc: Map<Seq<char>, Option<Seq<char>>>,
)
    requires
        0 <= i < toks.len(),
    ensures
        scan_cluster(table, toks, i, j, acc) matches Ok(a) ==> exists|jj: int|
            #[trigger] operand_suffix_at(table, toks, jj, a),
    decreases toks.len() - i, 0int, toks[i].len() - j,
{
    let t = toks[i];
    if j < 1 || j >= t.len() {
        lemma_scan_from_operand_tail(table, toks, i + 1, acc);
    } else {
        let c = t[j];
        match crate::model::find_short(table, c) {
            None => {},
            Some(m) => {
                match m.has_arg {
                    HasArg::NoArgument => {
                        lemma_scan_cluster_operand_tail(
                            table,
                            toks,
                            i,
                            j + 1,
                            acc.insert(identity_of(m), None),
                        );
                    },
                    HasArg::RequiredArgument => {
                        if j + 1 < t.len() {
                            lemma_scan_from_operand_tail(
                                table,
                                toks,
                                i + 1,
                                acc.insert(identity_of(m), Some(t.subrange(j + 1, t.len() as int))),
                            );
                        } else if i + 1 < toks.len() {
                            lemma_scan_from_operand_tail(
                                table,
                                toks,
                                i + 2,
                                acc.insert(identity_of(m), Some(toks[i + 1])),
                            );
                        }
                    },
                    HasArg::OptionalArgument => {
                        lemma_scan_from_operand_tail(
                            table,
                            toks,
                            i + 1,
                            acc.insert(
                                identity_of(m),
                                if j + 1 < t.len() {
                                    Some(t.subrange(j + 1, t.len() as int))
                                } else {
                                    None
                                },
                            ),
                        );
                    },
                }
            },
        }
    }
}

/// The operand tail of a successful full scan is a contiguous suffix of
/// the tokens, beginning right after the separator `--` or at the first
/// bare token, and no token of it is matched as an option.
pub proof fn lemma_scan_operand_tail(table: Seq<OptModel>, toks: Seq<Seq<char>>)
    ensures
        scan_spec(table, toks) matches Ok(a) ==> exists|j: int| #[trigger] operand_suffix_at(
            table,
            toks,
            j,
            a,
        ),
{
    lemma_scan_from_operand_tail(table, toks, 1, Map::empty());
}

} // verus!
