//! The mathematical model of option scanning: ghost mirrors of the declared
//! options and of the scan outcome, and the recursive specification of the
//! left-to-right scan itself. The executable scanner in `getopt_long` is
//! proved to return exactly what these functions describe.

use vstd::prelude::*;
use crate::getopt_long::HasArg;

verus! {

/// The model of one declared option: its names, its arity and its help text.
pub ghost struct OptModel {
    pub long_name: Option<Seq<char>>,
    pub short_name: Option<char>,
    pub has_arg: HasArg,
    pub desc: Seq<char>,
}

/// The model of a successful scan: the matched options, each under its
/// identity and with its optional value, and the positional operand tail.
pub ghost struct ArgsModel {
    pub matched: Map<Seq<char>, Option<Seq<char>>>,
    pub operands: Seq<Seq<char>>,
}

/// The model of a scan failure, mirroring `OptError`.
pub ghost enum ErrModel {
    InvalidOption(Seq<char>),
    MissingOptionArgument(Seq<char>),
    UnexpectedArgument(Seq<char>),
}

/// A name free of embedded NUL terminators.
pub open spec fn nul_free(s: Seq<char>) -> bool {
    forall|i: int| 0 <= i < s.len() ==> s[i] != '\0'
}

/// A declared option is well formed when it carries at least one name and
/// its names hold no NUL terminator.
pub open spec fn opt_wf(m: OptModel) -> bool {
    &&& m.long_name is Some || m.short_name is Some
    &&& m.long_name is Some ==> nul_free(m.long_name->0)
    &&& m.short_name is Some ==> m.short_name->0 != '\0'
}

/// A table is well formed when every entry is, no short letter repeats, and
/// no long name repeats.
pub open spec fn table_wf(t: Seq<OptModel>) -> bool {
    &&& forall|i: int| 0 <= i < t.len() ==> opt_wf(#[trigger] t[i])
    &&& forall|i: int, j: int|
        0 <= i < j < t.len() && (#[trigger] t[i]).short_name is Some ==> t[i].short_name != (
        #[trigger] t[j]).short_name
    &&& forall|i: int, j: int|
        0 <= i < j < t.len() && (#[trigger] t[i]).long_name is Some ==> t[i].long_name != (
        #[trigger] t[j]).long_name
}

/// The identity under which a matched option is recorded: its long name when
/// present, else its short letter as a one-character string.
pub open spec fn identity_of(m: OptModel) -> Seq<char> {
    match m.long_name {
        Some(n) => n,
        None => seq![m.short_name->0],
    }
}

/// The literal `--` separator that ends option scanning.
pub open spec fn is_separator(t: Seq<char>) -> bool {
    t.len() == 2 && t[0] == '-' && t[1] == '-'
}

/// A long-option token: `--` followed by at least one more character.
pub open spec fn is_long_token(t: Seq<char>) -> bool {
    t.len() > 2 && t[0] == '-' && t[1] == '-'
}

/// A short-option cluster: `-` followed by at least one character that is
/// not itself a `-`.
pub open spec fn is_short_token(t: Seq<char>) -> bool {
    t.len() >= 2 && t[0] == '-' && t[1] != '-'
}

/// The index of the first `=` in `t` at or after position `k`, or `t.len()`
/// when there is none.
pub open spec fn first_eq_from(t: Seq<char>, k: int) -> int
    decreases t.len() - k,
{
    if k < 0 || k >= t.len() {
        t.len() as int
    } else if t[k] == '=' {
        k
    } else {
        first_eq_from(t, k + 1)
    }
}

/// The first-`=` position never passes the end of the token.
pub proof fn lemma_first_eq_bounds(t: Seq<char>, k: int)
    requires
        0 <= k <= t.len(),
    ensures
        k <= first_eq_from(t, k) <= t.len(),
    decreases t.len() - k,
{
    if k < t.len() && t[k] != '=' {
        lemma_first_eq_bounds(t, k + 1);
    }
}

/// The first table entry from position `k` on that declares `name` as its
/// long name.
pub open spec fn find_long_from(t: Seq<OptModel>, name: Seq<char>, k: int) -> Option<OptModel>
    decreases t.len() - k,
{
    if k < 0 || k >= t.len() {
        None
    } else if t[k].long_name == Some(name) {
        Some(t[k])
    } else {
        find_long_from(t, name, k + 1)
    }
}

/// The first table entry declaring `name` as its long name.
pub open spec fn find_long(t: Seq<OptModel>, name: Seq<char>) -> Option<OptModel> {
    find_long_from(t, name, 0)
}

/// The first table entry from position `k` on that declares `c` as its
/// short letter.
pub open spec fn find_short_from(t: Seq<OptModel>, c: char, k: int) -> Option<OptModel>
    decreases t.len() - k,
{
    if k < 0 || k >= t.len() {
        None
    } else if t[k].short_name == Some(c) {
        Some(t[k])
    } else {
        find_short_from(t, c, k + 1)
    }
}

/// The first table entry declaring `c` as its short letter.
pub open spec fn find_short(t: Seq<OptModel>, c: char) -> Option<OptModel> {
    find_short_from(t, c, 0)
}

/// The scan from cursor position `i` with the matches gathered so far in
/// `acc`: the single left-to-right pass of the state machine. Position 0 is
/// the program name and is never examined.
pub open spec fn scan_from(
    table: Seq<OptModel>,
    toks: Seq<Seq<char>>,
    i: int,
    acc: Map<Seq<char>, Option<Seq<char>>>,
) -> Result<ArgsModel, ErrModel>
    decreases toks.len() - i, 1int, 0int,
{
    if i < 0 || i >= toks.len() {
        Ok(ArgsModel { matched: acc, operands: Seq::empty() })
    } else {
        let t = toks[i];
        if is_separator(t) {
            Ok(ArgsModel { matched: acc, operands: toks.subrange(i + 1, toks.len() as int) })
        } else if is_long_token(t) {
            scan_long(table, toks, i, acc)
        } else if is_short_token(t) {
            scan_cluster(table, toks, i, 1, acc)
        } else {
            Ok(ArgsModel { matched: acc, operands: toks.subrange(i, toks.len() as int) })
        }
    }
}

/// One long-option token at position `i`: split at the first `=` into name
/// and inline value, look the name up, and bind a value as the arity asks.
/// A required value missing inline comes from the next token, unless none is
/// left or the next token is the separator `--`; an optional value is taken
/// from the inline form only.
pub open spec fn scan_long(
    table: Seq<OptModel>,
    toks: Seq<Seq<char>>,
    i: int,
    acc: Map<Seq<char>, Option<Seq<char>>>,
) -> Result<ArgsModel, ErrModel>
    decreases toks.len() - i, 0int, 0int,
{
    if i < 0 || i >= toks.len() {
        Ok(ArgsModel { matched: acc, operands: Seq::empty() })
    } else {
        let t = toks[i];
        let e = first_eq_from(t, 2);
        let name = t.subrange(2, e);
        let has_inline = e < t.len();
        match find_long(table, name) {
            None => Err(ErrModel::InvalidOption(t)),
            Some(m) => match m.has_arg {
                HasArg::NoArgument => {
                    if has_inline {
                        Err(ErrModel::UnexpectedArgument(t))
                    } else {
                        scan_from(table, toks, i + 1, acc.insert(identity_of(m), None))
                    }
                },
                HasArg::RequiredArgument => {
                    if has_inline {
                        scan_from(
                            table,
                            toks,
                            i + 1,
                            acc.insert(identity_of(m), Some(t.subrange(e + 1, t.len() as int))),
                        )
                    } else if i + 1 >= toks.len() || is_separator(toks[i + 1]) {
                        Err(ErrModel::MissingOptionArgument(t))
                    } else {
                        scan_from(table, toks, i + 2, acc.insert(identity_of(m), Some(toks[i + 1])))
                    }
                },
                HasArg::OptionalArgument => {
                    scan_from(
                        table,
                        toks,
                        i + 1,
                        acc.insert(
                            identity_of(m),
                            if has_inline {
                                Some(t.subrange(e + 1, t.len() as int))
                            } else {
                                None
                            },
                        ),
                    )
                },
            },
        }
    }
}

/// The characters of one cluster token at position `i`, from character `j`
/// on: each letter is looked up in turn; a required value is the rest of the
/// cluster when characters remain, else the next whole token; an optional
/// value is the rest of the cluster or nothing.
pub open spec fn scan_cluster(
    table: Seq<OptModel>,
    toks: Seq<Seq<char>>,
    i: int,
    j: int,
    acc: Map<Seq<char>, Option<Seq<char>>>,
) -> Result<ArgsModel, ErrModel>
    decreases toks.len() - i, 0int, toks[i].len() - j,
{
    if i < 0 || i >= toks.len() {
        Ok(ArgsModel { matched: acc, operands: Seq::empty() })
    } else {
        let t = toks[i];
        if j < 1 || j >= t.len() {
            scan_from(table, toks, i + 1, acc)
        } else {
            let c = t[j];
            match find_short(table, c) {
                None => Err(ErrModel::InvalidOption(seq!['-', c])),
                Some(m) => match m.has_arg {
                    HasArg::NoArgument => {
                        scan_cluster(table, toks, i, j + 1, acc.insert(identity_of(m), None))
                    },
                    HasArg::RequiredArgument => {
                        if j + 1 < t.len() {
                            scan_from(
                                table,
                                toks,
                                i + 1,
                                acc.insert(identity_of(m), Some(t.subrange(j + 1, t.len() as int))),
                            )
                        } else if i + 1 >= toks.len() {
                            Err(ErrModel::MissingOptionArgument(seq!['-', c]))
                        } else {
                            scan_from(
                                table,
                                toks,
                                i + 2,
                                acc.insert(identity_of(m), Some(toks[i + 1])),
                            )
                        }
                    },
                    HasArg::OptionalArgument => {
                        scan_from(
                            table,
                            toks,
                            i + 1,
                            acc.insert(
                                identity_of(m),
                                if j + 1 < t.len() {
                                    Some(t.subrange(j + 1, t.len() as int))
                                } else {
                                    None
                                },
                            ),
                        )
                    },
                },
            }
        }
    }
}

/// The full scan of a token list against a table: the cursor starts at
/// index 1, token 0 being the program name, and the matched mapping starts
/// empty.
pub open spec fn scan_spec(table: Seq<OptModel>, toks: Seq<Seq<char>>) -> Result<
    ArgsModel,
    ErrModel,
> {
    scan_from(table, toks, 1, Map::empty())
}

/// The view of a token list: each token as its character sequence.
pub open spec fn toks_view(v: Seq<String>) -> Seq<Seq<char>> {
    Seq::new(v.len(), |i: int| v[i]@)
}

/// An optional string's view.
pub open spec fn opt_str_view(s: Option<String>) -> Option<Seq<char>> {
    match s {
        Some(x) => Some(x@),
        None => None,
    }
}

/// An association list of matched pairs folded into a mapping; a later pair
/// overwrites an earlier one with the same key.
pub open spec fn pairs_map(s: Seq<(Seq<char>, Option<Seq<char>>)>) -> Map<
    Seq<char>,
    Option<Seq<char>>,
>
    decreases s.len(),
{
    if s.len() == 0 {
        Map::empty()
    } else {
        pairs_map(s.drop_last()).insert(s.last().0, s.last().1)
    }
}

/// Pairwise-distinct keys in an association list.
pub open spec fn keys_distinct(s: Seq<(Seq<char>, Option<Seq<char>>)>) -> bool {
    forall|i: int, j: int| 0 <= i < j < s.len() ==> (#[trigger] s[i]).0 != (#[trigger] s[j]).0
}

/// The view of an association list of matched pairs.
pub open spec fn pairs_view(s: Seq<(String, Option<String>)>) -> Seq<
    (Seq<char>, Option<Seq<char>>),
> {
    Seq::new(s.len(), |i: int| (s[i].0@, opt_str_view(s[i].1)))
}

/// Overwriting the pair at a key's index leaves the folded mapping as an
/// insert at that key.
pub proof fn lemma_pairs_map_update(
    s: Seq<(Seq<char>, Option<Seq<char>>)>,
    i: int,
    p: (Seq<char>, Option<Seq<char>>),
)
    requires
        0 <= i < s.len(),
        s[i].0 == p.0,
        keys_distinct(s),
    ensures
        pairs_map(s.update(i, p)) =~= pairs_map(s).insert(p.0, p.1),
        keys_distinct(s.update(i, p)),
    decreases s.len(),
{
    let t = s.update(i, p);
    if i == s.len() - 1 {
        assert(t.drop_last() =~= s.drop_last());
        assert(pairs_map(s.drop_last()).insert(p.0, p.1) =~= pairs_map(s.drop_last()).insert(
            s.last().0,
            s.last().1,
        ).insert(p.0, p.1));
    } else {
        let l = s.last();
        assert(t.drop_last() =~= s.drop_last().update(i, p));
        assert(keys_distinct(s.drop_last()));
        lemma_pairs_map_update(s.drop_last(), i, p);
        assert(t.last() == l);
        assert(l.0 != p.0);
        assert(pairs_map(s.drop_last()).insert(p.0, p.1).insert(l.0, l.1) =~= pairs_map(
            s.drop_last(),
        ).insert(l.0, l.1).insert(p.0, p.1));
    }
    assert forall|a: int, b: int| 0 <= a < b < t.len() implies (#[trigger] t[a]).0 != (
    #[trigger] t[b]).0 by {
        assert(s[a].0 != s[b].0);
    }
}

/// A key stands in the folded mapping exactly when some pair carries it.
pub proof fn lemma_pairs_map_dom(s: Seq<(Seq<char>, Option<Seq<char>>)>, key: Seq<char>)
    ensures
        pairs_map(s).dom().contains(key) <==> exists|i: int|
            0 <= i < s.len() && (#[trigger] s[i]).0 == key,
    decreases s.len(),
{
    if s.len() > 0 {
        lemma_pairs_map_dom(s.drop_last(), key);
        if s.last().0 == key {
            assert(s[s.len() - 1].0 == key);
        } else if exists|i: int| 0 <= i < s.len() && (#[trigger] s[i]).0 == key {
            let i = choose|i: int| 0 <= i < s.len() && (#[trigger] s[i]).0 == key;
            assert(s.drop_last()[i] == s[i]);
        }
    }
}

/// With distinct keys, the folded mapping holds each pair's value under its
/// key.
pub proof fn lemma_pairs_map_value(s: Seq<(Seq<char>, Option<Seq<char>>)>, i: int)
    requires
        0 <= i < s.len(),
        keys_distinct(s),
    ensures
        pairs_map(s).dom().contains(s[i].0),
        pairs_map(s)[s[i].0] == s[i].1,
    decreases s.len(),
{
    if i == s.len() - 1 {
    } else {
        assert(keys_distinct(s.drop_last()));
        assert(s.drop_last()[i] == s[i]);
        lemma_pairs_map_value(s.drop_last(), i);
        assert(s.last().0 != s[i].0);
    }
}

/// The characters one option contributes to the short-option specification
/// string: its letter, then `:` for a required value or `::` for an
/// optional one.
pub open spec fn short_entry(m: OptModel) -> Seq<char> {
    match m.short_name {
        None => Seq::empty(),
        Some(c) => match m.has_arg {
            HasArg::NoArgument => seq![c],
            HasArg::RequiredArgument => seq![c, ':'],
            HasArg::OptionalArgument => seq![c, ':', ':'],
        },
    }
}

/// The short-option specification string of a whole table, in table order.
pub open spec fn short_spec_of(t: Seq<OptModel>) -> Seq<char>
    decreases t.len(),
{
    if t.len() == 0 {
        Seq::empty()
    } else {
        short_spec_of(t.drop_last()) + short_entry(t.last())
    }
}

/// The long-option descriptors of a table: each long name paired with its
/// arity, in table order.
pub open spec fn long_specs_of(t: Seq<OptModel>) -> Seq<(Seq<char>, HasArg)>
    decreases t.len(),
{
    if t.len() == 0 {
        Seq::empty()
    } else {
        long_specs_of(t.drop_last()) + (match t.last().long_name {
            Some(n) => seq![(n, t.last().has_arg)],
            None => Seq::empty(),
        })
    }
}

} // verus!
