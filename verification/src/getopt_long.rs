//! The option table and the scanner: declared options, the table that holds
//! them, and the single-pass scan of invocation tokens against the table.

use vstd::prelude::*;
use vstd::string::{StrSliceExecFns, StringExecFns};
use crate::text::char_to_string;
use crate::model::{
    ArgsModel, ErrModel, OptModel, find_long, find_long_from, find_short, find_short_from,
    first_eq_from, identity_of, is_long_token, is_separator, is_short_token, keys_distinct,
    lemma_pairs_map_update, lemma_pairs_map_value, lemma_pairs_map_dom,
    long_specs_of, nul_free, opt_str_view, opt_wf, pairs_map, pairs_view, scan_cluster, scan_from,
    scan_long, scan_spec, short_entry, short_spec_of, table_wf, toks_view,
};

verus! {

/// Whether an option takes a value after it.
#[derive(Clone, Copy, Debug, PartialEq, Eq, Structural)]
pub enum HasArg {
    NoArgument,
    RequiredArgument,
    OptionalArgument,
}

/// A scan failure: the first problem met in the left-to-right pass.
#[derive(Debug, Clone, PartialEq, Eq)]
pub enum OptError {
    /// An option letter or long name that the table does not declare.
    InvalidOption(String),
    /// An option requiring a value had none available.
    MissingOptionArgument(String),
    /// A no-argument long option was given an inline `=value`.
    UnexpectedArgument(String),
}

impl View for OptError {
    type V = ErrModel;

    open spec fn view(&self) -> ErrModel {
        match self {
            OptError::InvalidOption(s) => ErrModel::InvalidOption(s@),
            OptError::MissingOptionArgument(s) => ErrModel::MissingOptionArgument(s@),
            OptError::UnexpectedArgument(s) => ErrModel::UnexpectedArgument(s@),
        }
    }
}

impl OptError {
    /// Renders the error as one line of text naming the offending token.
    pub fn message(&self) -> (r: String)
        ensures
            match self {
                OptError::InvalidOption(s) => r@ == "invalid option: "@ + s@,
                OptError::MissingOptionArgument(s) => r@ == "missing option argument: "@ + s@,
                OptError::UnexpectedArgument(s) => r@ == "unexpected option argument: "@ + s@,
            },
    {
        match self {
            OptError::InvalidOption(s) => String::from_str("invalid option: ").concat(s.as_str()),
            OptError::MissingOptionArgument(s) => String::from_str(
                "missing option argument: ",
            ).concat(s.as_str()),
            OptError::UnexpectedArgument(s) => String::from_str(
                "unexpected option argument: ",
            ).concat(s.as_str()),
        }
    }
}

pub type OptResult<T> = Result<T, OptError>;

/// A failure to build an option or to add it to a table.
#[derive(Debug, Clone, Copy, PartialEq, Eq, Structural)]
pub enum ConstructionError {
    /// The option declared neither a long nor a short name.
    MissingName,
    /// A name held an embedded NUL terminator.
    NulInName,
    /// The short letter is already registered in the table.
    DuplicateShortName,
    /// The long name is already registered in the table.
    DuplicateLongName,
}

/// One declared option: an optional long name, an optional short letter,
/// whether it takes a value, and its help text. Every `Opt` carries at
/// least one name, and its names are free of NUL terminators.
#[derive(Debug)]
pub struct Opt {
    long_name: Option<String>,
    short_name: Option<char>,
    has_arg: HasArg,
    desc: String,
}

impl View for Opt {
    type V = OptModel;

    closed spec fn view(&self) -> OptModel {
        OptModel {
            long_name: opt_str_view(self.long_name),
            short_name: self.short_name,
            has_arg: self.has_arg,
            desc: self.desc@,
        }
    }
}

impl Opt {
    #[verifier::type_invariant]
    spec fn inv(self) -> bool {
        opt_wf(self@)
    }

    /// Builds one declared option. Fails when neither name is given, or when
    /// a name holds an embedded NUL terminator.
    pub fn new(
        long_name: Option<String>,
        short_name: Option<char>,
        has_arg: HasArg,
        desc: &str,
    ) -> (r: Result<Self, ConstructionError>)
        ensures
            ({
                let m = OptModel {
                    long_name: opt_str_view(long_name),
                    short_name: short_name,
                    has_arg: has_arg,
                    desc: desc@,
                };
                match r {
                    Ok(o) => opt_wf(m) && o@ == m,
                    Err(e) => !opt_wf(m) && e == (if long_name is None && short_name is None {
                        ConstructionError::MissingName
                    } else {
                        ConstructionError::NulInName
                    }),
                }
            }),
    {
        if long_name.is_none() && short_name.is_none() {
            return Err(ConstructionError::MissingName);
        }
        if let Some(ln) = &long_name {
            if contains_nul(ln.as_str()) {
                return Err(ConstructionError::NulInName);
            }
        }
        if let Some(c) = short_name {
            if c == '\0' {
                return Err(ConstructionError::NulInName);
            }
        }
        Ok(Self { long_name, short_name, has_arg, desc: desc.to_owned() })
    }

    /// The characters this option contributes to the short-option
    /// specification string, when it has a short letter. A pure function of
    /// the option's contents.
    pub fn optstring(&self) -> (r: Option<String>)
        ensures
            self@.short_name is Some ==> r is Some && r->0@ == short_entry(self@),
            self@.short_name is None ==> r is None,
    {
        match self.short_name {
            None => None,
            Some(c) => {
                let mut s = char_to_string(c);
                match self.has_arg {
                    HasArg::NoArgument => (),
                    HasArg::RequiredArgument => s.append(":"),
                    HasArg::OptionalArgument => s.append("::"),
                }
                proof {
                    reveal_strlit(":");
                    reveal_strlit("::");
                    assert(s@ =~= short_entry(self@));
                }
                Some(s)
            },
        }
    }

    /// The declared long name.
    pub fn long_name(&self) -> (r: &Option<String>)
        ensures
            opt_str_view(*r) == self@.long_name,
    {
        &self.long_name
    }

    /// The declared short letter.
    pub fn short_name(&self) -> (r: Option<char>)
        ensures
            r == self@.short_name,
    {
        self.short_name
    }

    /// Whether the option takes a value.
    pub fn has_arg(&self) -> (r: HasArg)
        ensures
            r == self@.has_arg,
    {
        self.has_arg
    }

    /// The help text.
    pub fn desc(&self) -> (r: &String)
        ensures
            r@ == self@.desc,
    {
        &self.desc
    }

    /// The long-option descriptor of this option, when it has a long name.
    /// A pure function of the option's contents.
    pub fn long_option(&self) -> (r: Option<LongSpec>)
        ensures
            self@.long_name is Some ==> r is Some && r->0@ == (self@.long_name->0, self@.has_arg),
            self@.long_name is None ==> r is None,
    {
        match &self.long_name {
            Some(n) => Some(LongSpec { name: n.clone(), has_arg: self.has_arg }),
            None => None,
        }
    }
}

/// One long-option descriptor derived from a table: a long name paired with
/// its arity.
#[derive(Debug, PartialEq, Eq)]
pub struct LongSpec {
    pub name: String,
    pub has_arg: HasArg,
}

impl View for LongSpec {
    type V = (Seq<char>, HasArg);

    open spec fn view(&self) -> (Seq<char>, HasArg) {
        (self.name@, self.has_arg)
    }
}

/// The view of a sequence of declared options: each as its model.
pub open spec fn table_view(s: Seq<Opt>) -> Seq<OptModel> {
    Seq::new(s.len(), |i: int| s[i]@)
}

/// The view of a sequence of long-option descriptors.
pub open spec fn long_specs_view(s: Seq<LongSpec>) -> Seq<(Seq<char>, HasArg)> {
    Seq::new(s.len(), |i: int| s[i]@)
}

/// An ordered table of declared options; insertion order is kept. No short
/// letter and no long name is registered twice.
#[derive(Debug)]
pub struct OptionTable {
    specs: Vec<Opt>,
}

impl View for OptionTable {
    type V = Seq<OptModel>;

    closed spec fn view(&self) -> Seq<OptModel> {
        table_view(self.specs@)
    }
}

impl OptionTable {
    #[verifier::type_invariant]
    spec fn inv(self) -> bool {
        table_wf(self@)
    }

    /// An empty table.
    pub fn new() -> (r: Self)
        ensures
            r@ =~= Seq::<OptModel>::empty(),
    {
        Self { specs: Vec::new() }
    }

    /// The number of declared options.
    pub fn len(&self) -> (r: usize)
        ensures
            r == self@.len(),
    {
        self.specs.len()
    }

    /// The declared options, in insertion order, for handing to the scanner.
    pub fn opts(&self) -> (r: &Vec<Opt>)
        ensures
            table_view(r@) == self@,
    {
        &self.specs
    }

    /// Registers one declared option at the end of the table. Fails, leaving
    /// the table unchanged, when the option's short letter or long name is
    /// already registered.
    pub fn add(&mut self, opt: Opt) -> (r: Result<(), ConstructionError>)
        ensures
            ({
                let dup_short = opt@.short_name is Some && exists|k: int|
                    0 <= k < old(self)@.len() && (#[trigger] old(self)@[k]).short_name
                        == opt@.short_name;
                let dup_long = opt@.long_name is Some && exists|k: int|
                    0 <= k < old(self)@.len() && (#[trigger] old(self)@[k]).long_name
                        == opt@.long_name;
                match r {
                    Ok(_) => !dup_short && !dup_long && final(self)@ =~= old(self)@.push(opt@),
                    Err(e) => (dup_short || dup_long) && final(self)@ == old(self)@ && e == (
                    if dup_short {
                        ConstructionError::DuplicateShortName
                    } else {
                        ConstructionError::DuplicateLongName
                    }),
                }
            }),
    {
        proof {
            use_type_invariant(&*self);
            use_type_invariant(&opt);
        }
        let n = self.specs.len();
        if let Some(c) = opt.short_name {
            let mut k: usize = 0;
            while k < n
                invariant
                    k <= n,
                    n == self.specs.len(),
                    self.specs@ == old(self).specs@,
                    opt@.short_name == Some(c),
                    forall|i: int|
                        0 <= i < k ==> (#[trigger] old(self)@[i]).short_name != Some(c),
                decreases n - k,
            {
                let o = &self.specs[k];
                if let Some(c2) = o.short_name {
                    if c2 == c {
                        proof {
                            assert(old(self)@[k as int].short_name == Some(c));
                        }
                        return Err(ConstructionError::DuplicateShortName);
                    }
                }
                k += 1;
            }
        }
        if let Some(ln) = &opt.long_name {
            let mut k: usize = 0;
            while k < n
                invariant
                    k <= n,
                    n == self.specs.len(),
                    self.specs@ == old(self).specs@,
                    opt@.short_name is Some ==> forall|i: int|
                        0 <= i < old(self)@.len() ==> (#[trigger] old(self)@[i]).short_name
                            != opt@.short_name,
                    opt@.long_name == Some(ln@),
                    forall|i: int|
                        0 <= i < k ==> (#[trigger] old(self)@[i]).long_name != Some(ln@),
                decreases n - k,
            {
                let o = &self.specs[k];
                if let Some(l2) = &o.long_name {
                    if str_eq_chars(l2.as_str(), ln.as_str()) {
                        proof {
                            assert(old(self)@[k as int].long_name == Some(ln@));
                        }
                        return Err(ConstructionError::DuplicateLongName);
                    }
                }
                k += 1;
            }
        }
        let mut specs: Vec<Opt> = Vec::new();
        std::mem::swap(&mut specs, &mut self.specs);
        specs.push(opt);
        proof {
            assert(table_view(specs@) =~= old(self)@.push(specs@.last()@));
        }
        self.specs = specs;
        Ok(())
    }

    /// Derives the two scan-time artifacts of the table: the compact
    /// short-option specification string, and the list of long-option
    /// descriptors. A pure function of the table's contents.
    pub fn derive_scan_artifacts(&self) -> (r: (String, Vec<LongSpec>))
        ensures
            r.0@ == short_spec_of(self@),
            long_specs_view(r.1@) == long_specs_of(self@),
    {
        let mut shorts = String::new();
        let mut longs: Vec<LongSpec> = Vec::new();
        let n = self.specs.len();
        let mut k: usize = 0;
        while k < n
            invariant
                k <= n,
                n == self.specs.len(),
                shorts@ == short_spec_of(self@.take(k as int)),
                long_specs_view(longs@) == long_specs_of(self@.take(k as int)),
            decreases n - k,
        {
            let o = &self.specs[k];
            let ghost prev = self@.take(k as int);
            proof {
                assert(self@.take(k + 1).drop_last() =~= prev);
                assert(self@.take(k + 1).last() == o@);
            }
            if let Some(s) = o.optstring() {
                shorts.append(s.as_str());
            } else {
                proof {
                    assert(shorts@ =~= short_spec_of(prev) + short_entry(o@));
                }
            }
            if let Some(lo) = o.long_option() {
                longs.push(lo);
                proof {
                    assert(long_specs_view(longs@) =~= long_specs_of(prev) + seq![
                        (o@.long_name->0, o@.has_arg),
                    ]);
                }
            } else {
                proof {
                    assert(long_specs_view(longs@) =~= long_specs_of(prev) + Seq::empty());
                }
            }
            k += 1;
        }
        proof {
            assert(self@.take(n as int) =~= self@);
        }
        (shorts, longs)
    }
}

/// The result of a successful scan: the matched options, each under its
/// identity with its optional value, and the positional operands in their
/// original order. Keys in `matched` are unique; a repeated option keeps
/// only its last value.
#[derive(Debug)]
pub struct Arguments {
    pub matched: Vec<(String, Option<String>)>,
    pub operands: Vec<String>,
}

impl View for Arguments {
    type V = ArgsModel;

    open spec fn view(&self) -> ArgsModel {
        ArgsModel {
            matched: pairs_map(pairs_view(self.matched@)),
            operands: toks_view(self.operands@),
        }
    }
}

impl Arguments {
    /// The matched list carries no repeated identity.
    pub open spec fn wf(self) -> bool {
        keys_distinct(pairs_view(self.matched@))
    }

    /// The value recorded under an option identity, when that option
    /// matched: `Some(None)` for a match without a value, `Some(Some(text))`
    /// for one with a value, `None` for an option that never matched.
    pub fn matched_value(&self, name: &str) -> (r: Option<&Option<String>>)
        requires
            self.wf(),
        ensures
            match r {
                Some(v) => self@.matched.dom().contains(name@) && opt_str_view(*v)
                    == self@.matched[name@],
                None => !self@.matched.dom().contains(name@),
            },
    {
        let n = self.matched.len();
        let mut k: usize = 0;
        while k < n
            invariant
                k <= n,
                n == self.matched@.len(),
                self.wf(),
                forall|i: int| 0 <= i < k ==> (#[trigger] pairs_view(self.matched@)[i]).0 != name@,
            decreases n - k,
        {
            let p = &self.matched[k];
            if str_eq_chars(p.0.as_str(), name) {
                proof {
                    lemma_pairs_map_value(pairs_view(self.matched@), k as int);
                }
                return Some(&p.1);
            }
            k += 1;
        }
        proof {
            lemma_pairs_map_dom(pairs_view(self.matched@), name@);
        }
        None
    }
}

/// Records one match: overwrites the pair already carrying this identity,
/// else appends a new pair.
fn insert_matched(matched: &mut Vec<(String, Option<String>)>, key: String, val: Option<String>)
    requires
        keys_distinct(pairs_view(old(matched)@)),
    ensures
        keys_distinct(pairs_view(final(matched)@)),
        pairs_map(pairs_view(final(matched)@)) == pairs_map(pairs_view(old(matched)@)).insert(
            key@,
            opt_str_view(val),
        ),
{
    let n = matched.len();
    let mut k: usize = 0;
    while k < n
        invariant
            k <= n,
            n == matched@.len(),
            matched@ == old(matched)@,
            keys_distinct(pairs_view(matched@)),
            forall|i: int| 0 <= i < k ==> (#[trigger] pairs_view(matched@)[i]).0 != key@,
        decreases n - k,
    {
        let found = {
            let p = &matched[k];
            str_eq_chars(p.0.as_str(), key.as_str())
        };
        if found {
            let ghost s0 = pairs_view(matched@);
            matched.remove(k);
            matched.insert(k, (key, val));
            proof {
                assert(matched@ =~= old(matched)@.update(k as int, matched@[k as int]));
                assert(pairs_view(matched@) =~= s0.update(
                    k as int,
                    (matched@[k as int].0@, opt_str_view(matched@[k as int].1)),
                ));
                lemma_pairs_map_update(
                    s0,
                    k as int,
                    (matched@[k as int].0@, opt_str_view(matched@[k as int].1)),
                );
            }
            return ;
        }
        k += 1;
    }
    let ghost s0 = pairs_view(matched@);
    matched.push((key, val));
    proof {
        assert(pairs_view(matched@).drop_last() =~= s0);
        assert(pairs_view(matched@).last() == (key@, opt_str_view(val)));
        assert forall|a: int, b: int| 0 <= a < b < pairs_view(matched@).len() implies (
        #[trigger] pairs_view(matched@)[a]).0 != (#[trigger] pairs_view(matched@)[b]).0 by {
            if b < s0.len() {
                assert(s0[a].0 != s0[b].0);
            } else {
                assert(s0[a].0 != key@);
            }
        }
    }
}

/// True when the token is exactly the separator `--`.
fn token_is_separator(t: &str) -> (r: bool)
    ensures
        r == is_separator(t@),
{
    let n = t.unicode_len();
    if n != 2 {
        return false;
    }
    t.get_char(0) == '-' && t.get_char(1) == '-'
}

/// True when the token is a long option: `--` and more.
fn token_is_long(t: &str) -> (r: bool)
    ensures
        r == is_long_token(t@),
{
    let n = t.unicode_len();
    if n <= 2 {
        return false;
    }
    t.get_char(0) == '-' && t.get_char(1) == '-'
}

/// True when the token is a short-option cluster.
fn token_is_short(t: &str) -> (r: bool)
    ensures
        r == is_short_token(t@),
{
    let n = t.unicode_len();
    if n < 2 {
        return false;
    }
    t.get_char(0) == '-' && t.get_char(1) != '-'
}

/// The position of the first `=` after the `--` prefix, or the token's
/// length when there is none.
fn first_eq_exec(t: &str) -> (r: usize)
    requires
        2 <= t@.len(),
    ensures
        r == first_eq_from(t@, 2),
        2 <= r <= t@.len(),
        r < t@.len() ==> t@[r as int] == '=',
        forall|i: int| 2 <= i < r ==> t@[i] != '=',
{
    let n = t.unicode_len();
    let mut k: usize = 2;
    while k < n
        invariant
            2 <= k <= n,
            n == t@.len(),
            first_eq_from(t@, 2) == first_eq_from(t@, k as int),
            forall|i: int| 2 <= i < k ==> t@[i] != '=',
        decreases n - k,
    {
        if t.get_char(k) == '=' {
            return k;
        }
        k += 1;
    }
    k
}

/// The first declared option carrying `name` as its long name.
fn find_long_exec<'a>(opts: &'a [Opt], name: &str) -> (r: Option<&'a Opt>)
    ensures
        match r {
            Some(o) => find_long(table_view(opts@), name@) == Some(o@),
            None => find_long(table_view(opts@), name@) is None,
        },
{
    let n = opts.len();
    let mut k: usize = 0;
    while k < n
        invariant
            k <= n,
            n == opts@.len(),
            find_long_from(table_view(opts@), name@, 0) == find_long_from(
                table_view(opts@),
                name@,
                k as int,
            ),
        decreases n - k,
    {
        let o = &opts[k];
        if let Some(ln) = &o.long_name {
            if str_eq_chars(ln.as_str(), name) {
                proof {
                    assert(table_view(opts@)[k as int].long_name == Some(name@));
                }
                return Some(o);
            }
        }
        k += 1;
    }
    None
}

/// The first declared option carrying `c` as its short letter.
fn find_short_exec<'a>(opts: &'a [Opt], c: char) -> (r: Option<&'a Opt>)
    ensures
        match r {
            Some(o) => find_short(table_view(opts@), c) == Some(o@),
            None => find_short(table_view(opts@), c) is None,
        },
{
    let n = opts.len();
    let mut k: usize = 0;
    while k < n
        invariant
            k <= n,
            n == opts@.len(),
            find_short_from(table_view(opts@), c, 0) == find_short_from(
                table_view(opts@),
                c,
                k as int,
            ),
        decreases n - k,
    {
        let o = &opts[k];
        if let Some(c2) = o.short_name {
            if c2 == c {
                proof {
                    assert(table_view(opts@)[k as int].short_name == Some(c));
                }
                return Some(o);
            }
        }
        k += 1;
    }
    None
}

/// The identity under which a match of this option is recorded.
fn identity_exec(o: &Opt) -> (r: String)
    ensures
        r@ == identity_of(o@),
{
    proof {
        use_type_invariant(o);
    }
    match &o.long_name {
        Some(n) => n.clone(),
        None => char_to_string(o.short_name.unwrap()),
    }
}

/// Clones the tokens from position `from` on, in order.
fn collect_tail(tokens: &Vec<String>, from: usize) -> (r: Vec<String>)
    requires
        from <= tokens@.len(),
    ensures
        toks_view(r@) == toks_view(tokens@).subrange(from as int, tokens@.len() as int),
{
    let mut out: Vec<String> = Vec::new();
    let mut k: usize = from;
    proof {
        assert(toks_view(out@) =~= toks_view(tokens@).subrange(from as int, from as int));
    }
    while k < tokens.len()
        invariant
            from <= k <= tokens@.len(),
            toks_view(out@) == toks_view(tokens@).subrange(from as int, k as int),
        decreases tokens@.len() - k,
    {
        let ghost prev = out@;
        out.push(tokens[k].clone());
        k += 1;
        proof {
            let s2 = toks_view(tokens@).subrange(from as int, k as int);
            assert(toks_view(prev) == toks_view(tokens@).subrange(from as int, k - 1));
            assert(out@[prev.len() as int] == tokens@[k - 1]);
            assert forall|i: int| 0 <= i < toks_view(out@).len() implies toks_view(out@)[i]
                == s2[i] by {
                if i < prev.len() {
                    assert(out@[i] == prev[i]);
                    assert(toks_view(prev)[i] == toks_view(tokens@).subrange(
                        from as int,
                        k - 1,
                    )[i]);
                } else {
                    assert(out@[i] == tokens@[k - 1]);
                }
            }
            assert(toks_view(out@) =~= s2);
        }
    }
    out
}

/// Handles one long-option token at cursor `i`: splits it at the first `=`,
/// looks the name up, binds a value as the arity asks, and returns the new
/// cursor, or the first error.
fn scan_long_exec(
    opts: &[Opt],
    tokens: &Vec<String>,
    i: usize,
    matched: &mut Vec<(String, Option<String>)>,
) -> (r: Result<usize, OptError>)
    requires
        i < tokens@.len(),
        is_long_token(toks_view(tokens@)[i as int]),
        keys_distinct(pairs_view(old(matched)@)),
    ensures
        keys_distinct(pairs_view(final(matched)@)),
        ({
            let tv = table_view(opts@);
            let kv = toks_view(tokens@);
            let acc0 = pairs_map(pairs_view(old(matched)@));
            match r {
                Ok(ni) => i < ni <= tokens@.len() && scan_long(tv, kv, i as int, acc0)
                    == scan_from(tv, kv, ni as int, pairs_map(pairs_view(final(matched)@))),
                Err(e) => scan_long(tv, kv, i as int, acc0) == Err::<ArgsModel, ErrModel>(e@)
                    && final(matched)@ == old(matched)@,
            }
        }),
{
    let ghost tv = table_view(opts@);
    let ghost kv = toks_view(tokens@);
    let n = tokens.len();
    let t = &tokens[i];
    let tl = t.unicode_len();
    let e = first_eq_exec(t.as_str());
    let name = t.as_str().substring_char(2, e);
    match find_long_exec(opts, name) {
        None => Err(OptError::InvalidOption(t.clone())),
        Some(o) => {
            match o.has_arg {
                HasArg::NoArgument => {
                    if e < tl {
                        Err(OptError::UnexpectedArgument(t.clone()))
                    } else {
                        let id = identity_exec(o);
                        insert_matched(matched, id, None);
                        Ok(i + 1)
                    }
                },
                HasArg::RequiredArgument => {
                    if e < tl {
                        let id = identity_exec(o);
                        let v = t.as_str().substring_char(e + 1, tl).to_owned();
                        insert_matched(matched, id, Some(v));
                        Ok(i + 1)
                    } else if i + 1 >= n {
                        Err(OptError::MissingOptionArgument(t.clone()))
                    } else if token_is_separator(tokens[i + 1].as_str()) {
                        Err(OptError::MissingOptionArgument(t.clone()))
                    } else {
                        let id = identity_exec(o);
                        let v = tokens[i + 1].clone();
                        insert_matched(matched, id, Some(v));
                        Ok(i + 2)
                    }
                },
                HasArg::OptionalArgument => {
                    let id = identity_exec(o);
                    if e < tl {
                        let v = t.as_str().substring_char(e + 1, tl).to_owned();
                        insert_matched(matched, id, Some(v));
                    } else {
                        insert_matched(matched, id, None);
                    }
                    Ok(i + 1)
                },
            }
        },
    }
}

/// Handles one short-option cluster at cursor `i`: each character after the
/// leading `-` is looked up in turn, a required or optional value ending the
/// token. Returns the new cursor, or the first error.
fn scan_cluster_exec(
    opts: &[Opt],
    tokens: &Vec<String>,
    i: usize,
    matched: &mut Vec<(String, Option<String>)>,
) -> (r: Result<usize, OptError>)
    requires
        i < tokens@.len(),
        is_short_token(toks_view(tokens@)[i as int]),
        keys_distinct(pairs_view(old(matched)@)),
    ensures
        keys_distinct(pairs_view(final(matched)@)),
        ({
            let tv = table_view(opts@);
            let kv = toks_view(tokens@);
            let acc0 = pairs_map(pairs_view(old(matched)@));
            match r {
                Ok(ni) => i < ni <= tokens@.len() && scan_cluster(tv, kv, i as int, 1, acc0)
                    == scan_from(tv, kv, ni as int, pairs_map(pairs_view(final(matched)@))),
                Err(e) => scan_cluster(tv, kv, i as int, 1, acc0) == Err::<ArgsModel, ErrModel>(
                    e@,
                ),
            }
        }),
{
    let ghost tv = table_view(opts@);
    let ghost kv = toks_view(tokens@);
    let ghost acc0 = pairs_map(pairs_view(old(matched)@));
    let n = tokens.len();
    let t = &tokens[i];
    let tl = t.unicode_len();
    let mut j: usize = 1;
    loop
        invariant
            1 <= j <= tl,
            i < tokens@.len(),
            n == tokens@.len(),
            tl == kv[i as int].len(),
            t@ == kv[i as int],
            tv == table_view(opts@),
            kv == toks_view(tokens@),
            acc0 == pairs_map(pairs_view(old(matched)@)),
            keys_distinct(pairs_view(matched@)),
            scan_cluster(tv, kv, i as int, j as int, pairs_map(pairs_view(matched@)))
                == scan_cluster(tv, kv, i as int, 1, acc0),
        decreases tl - j,
    {
        if j >= tl {
            return Ok(i + 1);
        }
        let c = t.as_str().get_char(j);
        match find_short_exec(opts, c) {
            None => {
                let dash = String::from_str("-").concat(t.as_str().substring_char(j, j + 1));
                proof {
                    reveal_strlit("-");
                    assert(dash@ =~= seq!['-', c]);
                }
                return Err(OptError::InvalidOption(dash));
            },
            Some(o) => {
                match o.has_arg {
                    HasArg::NoArgument => {
                        let id = identity_exec(o);
                        insert_matched(matched, id, None);
                        j += 1;
                    },
                    HasArg::RequiredArgument => {
                        let id = identity_exec(o);
                        if j + 1 < tl {
                            let v = t.as_str().substring_char(j + 1, tl).to_owned();
                            insert_matched(matched, id, Some(v));
                            return Ok(i + 1);
                        } else if i + 1 >= n {
                            let dash = String::from_str("-").concat(
                                t.as_str().substring_char(j, j + 1),
                            );
                            proof {
                                reveal_strlit("-");
                                assert(dash@ =~= seq!['-', c]);
                            }
                            return Err(OptError::MissingOptionArgument(dash));
                        } else {
                            let v = tokens[i + 1].clone();
                            insert_matched(matched, id, Some(v));
                            return Ok(i + 2);
                        }
                    },
                    HasArg::OptionalArgument => {
                        let id = identity_exec(o);
                        if j + 1 < tl {
                            let v = t.as_str().substring_char(j + 1, tl).to_owned();
                            insert_matched(matched, id, Some(v));
                        } else {
                            insert_matched(matched, id, None);
                        }
                        return Ok(i + 1);
                    },
                }
            },
        }
    }
}

/// Scans the invocation tokens against the declared options, left to right
/// in a single pass: token 0 is the program name and is skipped; `-x`,
/// `-xvalue`, `-abc`, `--long`, `--long=value` and `--long value` forms are
/// recognized; the literal `--` and the first bare token end option
/// scanning, all later tokens becoming operands. Returns the matched
/// options with the operand tail, or the first error met.
pub fn getopt_long(opts: &[Opt], tokens: &Vec<String>) -> (r: OptResult<Arguments>)
    ensures
        ({
            let s = scan_spec(table_view(opts@), toks_view(tokens@));
            match r {
                Ok(a) => s == Ok::<ArgsModel, ErrModel>(a@) && a.wf(),
                Err(e) => s == Err::<ArgsModel, ErrModel>(e@),
            }
        }),
{
    let ghost tv = table_view(opts@);
    let ghost kv = toks_view(tokens@);
    let n = tokens.len();
    let mut matched: Vec<(String, Option<String>)> = Vec::new();
    let mut i: usize = 1;
    proof {
        assert(pairs_view(matched@) =~= Seq::<(Seq<char>, Option<Seq<char>>)>::empty());
        assert(pairs_map(pairs_view(matched@)) =~= Map::<Seq<char>, Option<Seq<char>>>::empty());
    }
    loop
        invariant
            1 <= i,
            n == tokens@.len(),
            i <= n || i == 1,
            tv == table_view(opts@),
            kv == toks_view(tokens@),
            keys_distinct(pairs_view(matched@)),
            scan_from(tv, kv, i as int, pairs_map(pairs_view(matched@))) == scan_spec(tv, kv),
        decreases n - i,
    {
        if i >= n {
            let a = Arguments { matched, operands: Vec::new() };
            proof {
                assert(toks_view(a.operands@) =~= Seq::<Seq<char>>::empty());
            }
            return Ok(a);
        }
        let is_sep = {
            let t = &tokens[i];
            token_is_separator(t.as_str())
        };
        if is_sep {
            let ops = collect_tail(tokens, i + 1);
            let a = Arguments { matched, operands: ops };
            return Ok(a);
        }
        let is_long = {
            let t = &tokens[i];
            token_is_long(t.as_str())
        };
        if is_long {
            match scan_long_exec(opts, tokens, i, &mut matched) {
                Ok(ni) => {
                    i = ni;
                },
                Err(e) => {
                    return Err(e);
                },
            }
        } else {
            let is_short = {
                let t = &tokens[i];
                token_is_short(t.as_str())
            };
            if is_short {
                match scan_cluster_exec(opts, tokens, i, &mut matched) {
                    Ok(ni) => {
                        i = ni;
                    },
                    Err(e) => {
                        return Err(e);
                    },
                }
            } else {
                let ops = collect_tail(tokens, i);
                let a = Arguments { matched, operands: ops };
                return Ok(a);
            }
        }
    }
}

/// True when the text holds an embedded NUL terminator.
fn contains_nul(s: &str) -> (r: bool)
    ensures
        r == !nul_free(s@),
{
    let n = s.unicode_len();
    let mut k: usize = 0;
    while k < n
        invariant
            n == s@.len(),
            k <= n,
            forall|i: int| 0 <= i < k ==> s@[i] != '\0',
        decreases n - k,
    {
        if s.get_char(k) == '\0' {
            return true;
        }
        k += 1;
    }
    false
}

/// Character-by-character string equality.
fn str_eq_chars(a: &str, b: &str) -> (r: bool)
    ensures
        r == (a@ == b@),
{
    let alen = a.unicode_len();
    let blen = b.unicode_len();
    if alen != blen {
        return false;
    }
    let mut k: usize = 0;
    while k < alen
        invariant
            alen == a@.len(),
            blen == b@.len(),
            alen == blen,
            k <= alen,
            forall|i: int| 0 <= i < k ==> a@[i] == b@[i],
        decreases alen - k,
    {
        if a.get_char(k) != b.get_char(k) {
            return false;
        }
        k += 1;
    }
    proof {
        assert(a@ =~= b@);
    }
    true
}

} // verus!
