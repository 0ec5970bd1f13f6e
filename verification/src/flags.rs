//! Command-line flag tables: registration of boolean and value-taking
//! flags with optional short forms, aliases and negation (`--no-x`),
//! parsing of argument lists, and help-text rendering.
//!
//! The flag table is kept sorted by long name; parsed values and aliases
//! are association lists viewed as maps.

use vstd::prelude::*;
use crate::assoc::{amap, keys_unique, aget, acontains, ainsert, aremove, aempty};
use crate::assoc::{lemma_amap_dom, lemma_amap_get};
use crate::strutil::{lex_le, str_eq, str_le, str_starts_with, is_prefix_of};
use crate::strutil::{lemma_lex_le_total, lemma_lex_le_transitive, push_char};
use crate::strutil::{concat2, concat3, to_lower, lower_of, dv};

verus! {

/// One registered command-line flag.
pub struct Flag {
    pub short: Option<char>,
    pub long: String,
    pub help: String,
    pub takes_value: Option<String>,
    pub default_value: Option<String>,
}

/// View of an optional string as an optional character sequence.
pub open spec fn oview(o: Option<String>) -> Option<Seq<char>> {
    match o {
        Option::None => Option::None,
        Option::Some(s) => Option::Some(s@),
    }
}

/// Field-by-field view equality of two flags.
pub open spec fn flag_eqv(a: Flag, b: Flag) -> bool {
    a.short == b.short && a.long@ == b.long@ && a.help@ == b.help@ && oview(a.takes_value)
        == oview(b.takes_value) && oview(a.default_value) == oview(b.default_value)
}

impl Clone for Flag {
    fn clone(&self) -> (r: Self)
        ensures
            flag_eqv(*self, r),
    {
        Flag {
            short: self.short,
            long: self.long.clone(),
            help: self.help.clone(),
            takes_value: match &self.takes_value {
                Option::Some(s) => Option::Some(s.clone()),
                Option::None => Option::None,
            },
            default_value: match &self.default_value {
                Option::Some(s) => Option::Some(s.clone()),
                Option::None => Option::None,
            },
        }
    }
}

/// Some flag in `s` has long name `name`.
pub open spec fn has_long(s: Seq<Flag>, name: Seq<char>) -> bool {
    exists|i: int| 0 <= i < s.len() && s[i].long@ == name
}

/// The flag in `s` with long name `name` (meaningful under `has_long` and
/// unique long names).
pub open spec fn long_at(s: Seq<Flag>, name: Seq<char>) -> Flag {
    s[choose|i: int| 0 <= i < s.len() && s[i].long@ == name]
}

/// Some flag in `s` has short form `c`.
pub open spec fn has_short(s: Seq<Flag>, c: char) -> bool {
    exists|i: int| 0 <= i < s.len() && s[i].short == Option::Some(c)
}

/// The flag in `s` with short form `c`.
pub open spec fn short_at(s: Seq<Flag>, c: char) -> Flag {
    s[choose|i: int| 0 <= i < s.len() && s[i].short == Option::Some(c)]
}

/// An execution context handed in by the hosting shell; the copy engine
/// and the flag parser only use its error-location sink, which remembers
/// which command-line argument caused the most recent error.
pub struct Context {
    pub err_arg: usize,
}

impl Context {
    pub fn new() -> (r: Self)
        ensures
            r.err_arg == 0,
    {
        Context { err_arg: 0 }
    }

    /// Records the index of the offending command-line argument.
    pub fn set_err_arg(&mut self, i: usize)
        ensures
            final(self).err_arg == i,
    {
        self.err_arg = i;
    }
}

/// A table of registered flags together with parsed values.
pub struct CommandFlags {
    flags: Vec<Flag>,
    values: Vec<(String, String)>,
    aliases: Vec<(String, String)>,
    index: usize,
}

impl CommandFlags {
    /// Registered flags, sorted strictly by long name.
    pub closed spec fn flags_seq(self) -> Seq<Flag> {
        self.flags@
    }

    /// Parsed (or defaulted) values, keyed by long flag name.
    pub closed spec fn values_map(self) -> Map<Seq<char>, Seq<char>> {
        amap(self.values@)
    }

    /// Alias table, keyed by alias name.
    pub closed spec fn aliases_seq(self) -> Seq<(String, String)> {
        self.aliases@
    }

    /// Index of the argument most recently examined by the parser.
    pub closed spec fn index_spec(self) -> int {
        self.index as int
    }

    /// Well-formedness: longs strictly sorted (hence unique), shorts
    /// unique, and the two association lists have unique keys.
    pub closed spec fn wf(self) -> bool {
        &&& forall|i: int, j: int|
            0 <= i < j < self.flags@.len() ==> lex_le(#[trigger] self.flags@[i].long@, #[trigger] self.flags@[j].long@)
                && self.flags@[i].long@ != self.flags@[j].long@
        &&& forall|i: int, j: int|
            0 <= i < j < self.flags@.len() && #[trigger] self.flags@[i].short is Some
                ==> self.flags@[i].short != #[trigger] self.flags@[j].short
        &&& keys_unique(self.values@)
        &&& keys_unique(self.aliases@)
    }

    pub fn new() -> (r: Self)
        ensures
            r.wf(),
            r.flags_seq().len() == 0,
            r.values_map() == Map::<Seq<char>, Seq<char>>::empty(),
            r.aliases_seq().len() == 0,
            r.index_spec() == 0,
    {
        CommandFlags { flags: Vec::new(), values: Vec::new(), aliases: Vec::new(), index: 0 }
    }

    pub fn with_help() -> (r: Self)
        ensures
            r.wf(),
            r.flags_seq().len() == 1,
            r.flags_seq()[0].short == Option::Some('?'),
            r.flags_seq()[0].long@ == "help"@,
            r.flags_seq()[0].help@ == "Display this help and exit"@,
            r.flags_seq()[0].takes_value is None,
            r.flags_seq()[0].default_value is None,
            r.values_map() == Map::<Seq<char>, Seq<char>>::empty(),
            r.aliases_seq().len() == 0,
    {
        let mut flags = Self::new();
        flags.add_flag('?', "help", "Display this help and exit");
        flags
    }

    /// Looks up the index of the flag with the given long name.
    fn find_long(&self, name: &str) -> (r: Option<usize>)
        requires
            self.wf(),
        ensures
            match r {
                Option::Some(i) => i < self.flags@.len() && self.flags@[i as int].long@ == name@
                    && has_long(self.flags@, name@) && long_at(self.flags@, name@)
                    == self.flags@[i as int],
                Option::None => !has_long(self.flags@, name@),
            },
    {
        let n = self.flags.len();
        let mut i: usize = 0;
        while i < n
            invariant
                self.wf(),
                n == self.flags@.len(),
                i <= n,
                forall|j: int| 0 <= j < i ==> self.flags@[j].long@ != name@,
            decreases n - i,
        {
            if str_eq(self.flags[i].long.as_str(), name) {
                proof {
                    let w = choose|w: int| 0 <= w < self.flags@.len() && self.flags@[w].long@
                        == name@;
                    assert(self.flags@[w].long@ == self.flags@[i as int].long@);
                    assert(w == i as int);
                }
                return Some(i);
            }
            i += 1;
        }
        None
    }

    /// Looks up the index of the flag with the given short form.
    fn find_short(&self, c: char) -> (r: Option<usize>)
        requires
            self.wf(),
        ensures
            match r {
                Option::Some(i) => i < self.flags@.len() && self.flags@[i as int].short
                    == Option::Some(c) && has_short(self.flags@, c) && short_at(self.flags@, c)
                    == self.flags@[i as int],
                Option::None => !has_short(self.flags@, c),
            },
    {
        let n = self.flags.len();
        let mut i: usize = 0;
        while i < n
            invariant
                self.wf(),
                n == self.flags@.len(),
                i <= n,
                forall|j: int| 0 <= j < i ==> self.flags@[j].short != Option::Some(c),
            decreases n - i,
        {
            let is_match = match self.flags[i].short {
                Option::Some(s) => s == c,
                Option::None => false,
            };
            if is_match {
                proof {
                    let w = choose|w: int| 0 <= w < self.flags@.len() && self.flags@[w].short
                        == Option::Some(c);
                    assert(self.flags@[w].short == self.flags@[i as int].short);
                    assert(w == i as int);
                }
                return Some(i);
            }
            i += 1;
        }
        None
    }

    /// Registers a flag. The long name must be fresh, as must the short
    /// form if one is given (the unverified original aborts otherwise).
    pub fn add_with_default(
        &mut self,
        short: Option<char>,
        long: &str,
        takes_value: Option<String>,
        help: &str,
        default_value: Option<&str>,
    )
        requires
            old(self).wf(),
            !has_long(old(self).flags_seq(), long@),
            short is Some ==> !has_short(old(self).flags_seq(), short->0),
        ensures
            final(self).wf(),
            final(self).flags_seq().len() == old(self).flags_seq().len() + 1,
            has_long(final(self).flags_seq(), long@),
            ({
                let f = long_at(final(self).flags_seq(), long@);
                f.short == short && f.long@ == long@ && f.help@ == help@ && oview(f.takes_value)
                    == oview(takes_value) && oview(f.default_value) == match default_value {
                    Option::Some(d) => Option::Some(d@),
                    Option::None => Option::None::<Seq<char>>,
                }
            }),
            forall|k: Seq<char>|
                k != long@ ==> (has_long(final(self).flags_seq(), k) == has_long(
                    old(self).flags_seq(),
                    k,
                ) && (has_long(old(self).flags_seq(), k) ==> long_at(
                    final(self).flags_seq(),
                    k,
                ) == long_at(old(self).flags_seq(), k))),
            forall|c: char|
                has_short(final(self).flags_seq(), c) == (has_short(old(self).flags_seq(), c)
                    || short == Option::Some(c)),
            forall|c: char|
                has_short(old(self).flags_seq(), c) ==> short_at(final(self).flags_seq(), c)
                    == short_at(old(self).flags_seq(), c),
            short is Some ==> short_at(final(self).flags_seq(), short->0) == long_at(
                final(self).flags_seq(),
                long@,
            ),
            final(self).values_map() == old(self).values_map(),
            final(self).aliases_seq() == old(self).aliases_seq(),
            final(self).index_spec() == old(self).index_spec(),
    {
        let f = Flag {
            short,
            long: long.to_owned(),
            help: help.to_owned(),
            takes_value,
            default_value: match default_value {
                Option::Some(d) => Option::Some(d.to_owned()),
                Option::None => Option::None,
            },
        };
        let n = self.flags.len();
        let mut i: usize = 0;
        while i < n && str_le(self.flags[i].long.as_str(), long)
            invariant
                self.wf(),
                n == self.flags@.len(),
                i <= n,
                forall|j: int| 0 <= j < self.flags@.len() ==> self.flags@[j].long@ != long@,
                forall|j: int| 0 <= j < i ==> lex_le(#[trigger] self.flags@[j].long@, long@),
            decreases n - i,
        {
            i += 1;
        }
        proof {
            if i < n {
                lemma_lex_le_total(self.flags@[i as int].long@, long@);
            }
            assert(forall|j: int|
                i <= j < self.flags@.len() ==> lex_le(long@, #[trigger] self.flags@[j].long@))
                by {
                assert forall|j: int| i <= j < self.flags@.len() implies lex_le(
                    long@,
                    #[trigger] self.flags@[j].long@,
                ) by {
                    if i < n {
                        if j > i {
                            lemma_lex_le_transitive(
                                long@,
                                self.flags@[i as int].long@,
                                self.flags@[j].long@,
                            );
                        }
                    }
                }
            }
        }
        let ghost olds = self.flags@;
        self.flags.insert(i, f);
        proof {
            let news = self.flags@;
            assert(news.len() == olds.len() + 1);
            assert(forall|j: int| 0 <= j < i ==> news[j] == olds[j]);
            assert(news[i as int] == f);
            assert(forall|j: int| i < j < news.len() ==> news[j] == olds[j - 1]);
            assert(news[i as int].long@ == long@);
            assert(has_long(news, long@));
            let w = choose|w: int| 0 <= w < news.len() && news[w].long@ == long@;
            assert(w == i as int);
            assert(long_at(news, long@) == f);
            assert forall|k: Seq<char>| k != long@ && has_long(news, k) implies has_long(olds, k)
                && long_at(news, k) == long_at(olds, k) by {
                let a = choose|a: int| 0 <= a < news.len() && news[a].long@ == k;
                let a0: int = if a < i { a } else { a - 1 };
                assert(olds[a0].long@ == k);
                assert(has_long(olds, k));
                let b = choose|b: int| 0 <= b < olds.len() && olds[b].long@ == k;
                assert(b == a0);
            }
            assert forall|k: Seq<char>| k != long@ && has_long(olds, k) implies has_long(news, k)
                by {
                let a = choose|a: int| 0 <= a < olds.len() && olds[a].long@ == k;
                let a2: int = if a < i { a } else { a + 1 };
                assert(news[a2].long@ == k);
            }
            assert forall|c: char| has_short(news, c) implies (has_short(olds, c) || short
                == Option::Some(c)) by {
                let a = choose|a: int| 0 <= a < news.len() && news[a].short == Option::Some(c);
                if a != i {
                    let a0: int = if a < i { a } else { a - 1 };
                    assert(olds[a0].short == Option::Some(c));
                }
            }
            assert forall|c: char| has_short(olds, c) implies has_short(news, c) && short_at(
                news,
                c,
            ) == short_at(olds, c) by {
                let a = choose|a: int| 0 <= a < olds.len() && olds[a].short == Option::Some(c);
                let a2: int = if a < i { a } else { a + 1 };
                assert(news[a2].short == Option::Some(c));
                let b = choose|b: int| 0 <= b < news.len() && news[b].short == Option::Some(c);
                let b0: int = if b < i { b } else { b - 1 };
                if b != i {
                    assert(olds[b0].short == Option::Some(c));
                    assert(b0 == a);
                }
            }
            if short is Some {
                let c = short->0;
                let b = choose|b: int| 0 <= b < news.len() && news[b].short == Option::Some(c);
                if b != i {
                    let b0: int = if b < i { b } else { b - 1 };
                    assert(olds[b0].short == Option::Some(c));
                    assert(has_short(olds, c));
                }
                assert(b == i as int);
            }
            assert forall|a: int, b: int| 0 <= a < b < news.len() implies lex_le(
                #[trigger] news[a].long@,
                #[trigger] news[b].long@,
            ) && news[a].long@ != news[b].long@ by {
                if a == i {
                    assert(news[b] == olds[b - 1]);
                } else if b == i {
                    assert(news[a] == olds[a]);
                } else {
                    let a0: int = if a < i { a } else { a - 1 };
                    let b0: int = if b < i { b } else { b - 1 };
                    assert(news[a] == olds[a0] && news[b] == olds[b0]);
                }
            }
            assert forall|a: int, b: int| 0 <= a < b < news.len() && #[trigger] news[a].short
                is Some implies news[a].short != #[trigger] news[b].short by {
                if a == i {
                    assert(news[b] == olds[b - 1]);
                } else if b == i {
                    assert(news[a] == olds[a]);
                } else {
                    let a0: int = if a < i { a } else { a - 1 };
                    let b0: int = if b < i { b } else { b - 1 };
                    assert(news[a] == olds[a0] && news[b] == olds[b0]);
                }
            }
        }
    }

    /// Registers a flag with no default value.
    pub fn add(&mut self, short: Option<char>, long: &str, takes_value: Option<String>, help: &str)
        requires
            old(self).wf(),
            !has_long(old(self).flags_seq(), long@),
            short is Some ==> !has_short(old(self).flags_seq(), short->0),
        ensures
            final(self).wf(),
            final(self).flags_seq().len() == old(self).flags_seq().len() + 1,
            has_long(final(self).flags_seq(), long@),
            ({
                let f = long_at(final(self).flags_seq(), long@);
                f.short == short && f.long@ == long@ && f.help@ == help@ && oview(f.takes_value)
                    == oview(takes_value) && f.default_value is None
            }),
            forall|k: Seq<char>|
                k != long@ ==> (has_long(final(self).flags_seq(), k) == has_long(
                    old(self).flags_seq(),
                    k,
                ) && (has_long(old(self).flags_seq(), k) ==> long_at(
                    final(self).flags_seq(),
                    k,
                ) == long_at(old(self).flags_seq(), k))),
            forall|c: char|
                has_short(final(self).flags_seq(), c) == (has_short(old(self).flags_seq(), c)
                    || short == Option::Some(c)),
            forall|c: char|
                has_short(old(self).flags_seq(), c) ==> short_at(final(self).flags_seq(), c)
                    == short_at(old(self).flags_seq(), c),
            short is Some ==> short_at(final(self).flags_seq(), short->0) == long_at(
                final(self).flags_seq(),
                long@,
            ),
            final(self).values_map() == old(self).values_map(),
            final(self).aliases_seq() == old(self).aliases_seq(),
            final(self).index_spec() == old(self).index_spec(),
    {
        self.add_with_default(short, long, takes_value, help, None)
    }

    /// Registers a boolean flag with a short form.
    pub fn add_flag(&mut self, short: char, long: &str, help: &str)
        requires
            old(self).wf(),
            !has_long(old(self).flags_seq(), long@),
            !has_short(old(self).flags_seq(), short),
        ensures
            final(self).wf(),
            final(self).flags_seq().len() == old(self).flags_seq().len() + 1,
            has_long(final(self).flags_seq(), long@),
            ({
                let f = long_at(final(self).flags_seq(), long@);
                f.short == Option::Some(short) && f.long@ == long@ && f.help@ == help@
                    && f.takes_value is None && f.default_value is None
            }),
            forall|k: Seq<char>|
                k != long@ ==> (has_long(final(self).flags_seq(), k) == has_long(
                    old(self).flags_seq(),
                    k,
                ) && (has_long(old(self).flags_seq(), k) ==> long_at(
                    final(self).flags_seq(),
                    k,
                ) == long_at(old(self).flags_seq(), k))),
            forall|c: char|
                has_short(final(self).flags_seq(), c) == (has_short(old(self).flags_seq(), c) || c
                    == short),
            forall|c: char|
                has_short(old(self).flags_seq(), c) ==> short_at(final(self).flags_seq(), c)
                    == short_at(old(self).flags_seq(), c),
            short_at(final(self).flags_seq(), short) == long_at(final(self).flags_seq(), long@),
            final(self).values_map() == old(self).values_map(),
            final(self).aliases_seq() == old(self).aliases_seq(),
            final(self).index_spec() == old(self).index_spec(),
    {
        self.add(Some(short), long, None, help);
    }

    /// Registers a boolean flag that starts out enabled.
    pub fn add_flag_enabled(&mut self, short: char, long: &str, help: &str)
        requires
            old(self).wf(),
            !has_long(old(self).flags_seq(), long@),
            !has_short(old(self).flags_seq(), short),
        ensures
            final(self).wf(),
            final(self).flags_seq().len() == old(self).flags_seq().len() + 1,
            has_long(final(self).flags_seq(), long@),
            ({
                let f = long_at(final(self).flags_seq(), long@);
                f.short == Option::Some(short) && f.long@ == long@ && f.help@ == help@
                    && f.takes_value is None && oview(f.default_value) == Option::Some("true"@)
            }),
            forall|k: Seq<char>|
                k != long@ ==> (has_long(final(self).flags_seq(), k) == has_long(
                    old(self).flags_seq(),
                    k,
                ) && (has_long(old(self).flags_seq(), k) ==> long_at(
                    final(self).flags_seq(),
                    k,
                ) == long_at(old(self).flags_seq(), k))),
            forall|c: char|
                has_short(final(self).flags_seq(), c) == (has_short(old(self).flags_seq(), c) || c
                    == short),
            forall|c: char|
                has_short(old(self).flags_seq(), c) ==> short_at(final(self).flags_seq(), c)
                    == short_at(old(self).flags_seq(), c),
            final(self).values_map() == old(self).values_map(),
            final(self).aliases_seq() == old(self).aliases_seq(),
            final(self).index_spec() == old(self).index_spec(),
    {
        self.add_with_default(Some(short), long, None, help, Some("true"));
    }

    /// Registers a flag that takes a value.
    pub fn add_value(&mut self, short: char, long: &str, name: &str, help: &str)
        requires
            old(self).wf(),
            !has_long(old(self).flags_seq(), long@),
            !has_short(old(self).flags_seq(), short),
        ensures
            final(self).wf(),
            final(self).flags_seq().len() == old(self).flags_seq().len() + 1,
            has_long(final(self).flags_seq(), long@),
            ({
                let f = long_at(final(self).flags_seq(), long@);
                f.short == Option::Some(short) && f.long@ == long@ && f.help@ == help@ && oview(
                    f.takes_value,
                ) == Option::Some(name@) && f.default_value is None
            }),
            forall|k: Seq<char>|
                k != long@ ==> (has_long(final(self).flags_seq(), k) == has_long(
                    old(self).flags_seq(),
                    k,
                ) && (has_long(old(self).flags_seq(), k) ==> long_at(
                    final(self).flags_seq(),
                    k,
                ) == long_at(old(self).flags_seq(), k))),
            forall|c: char|
                has_short(final(self).flags_seq(), c) == (has_short(old(self).flags_seq(), c) || c
                    == short),
            forall|c: char|
                has_short(old(self).flags_seq(), c) ==> short_at(final(self).flags_seq(), c)
                    == short_at(old(self).flags_seq(), c),
            final(self).values_map() == old(self).values_map(),
            final(self).aliases_seq() == old(self).aliases_seq(),
            final(self).index_spec() == old(self).index_spec(),
    {
        self.add(Some(short), long, Some(name.to_owned()), help);
    }

    /// True when no value has been set (or defaulted) for any flag.
    pub fn is_empty(&self) -> (r: bool)
        requires
            self.wf(),
        ensures
            r == (self.values_map() == Map::<Seq<char>, Seq<char>>::empty()),
    {
        aempty(&self.values)
    }

    /// True when a value is recorded under `name`.
    pub fn is_present(&self, name: &str) -> (r: bool)
        requires
            self.wf(),
        ensures
            r == self.values_map().contains_key(name@),
    {
        acontains(&self.values, name)
    }

    /// The recorded value of `name`, for flags that take a value.
    pub fn value(&self, name: &str) -> (r: Option<&str>)
        requires
            self.wf(),
        ensures
            match r {
                Option::Some(v) => self.values_map().contains_key(name@) && v@
                    == self.values_map()[name@],
                Option::None => !self.values_map().contains_key(name@),
            },
    {
        match aget(&self.values, name) {
            Option::Some(v) => Option::Some(v.as_str()),
            Option::None => Option::None,
        }
    }

    /// The registered flags, in long-name order.
    pub fn iter(&self) -> (r: Vec<Flag>)
        requires
            self.wf(),
        ensures
            r@.len() == self.flags_seq().len(),
            forall|i: int| 0 <= i < r@.len() ==> flag_eqv(r@[i], self.flags_seq()[i]),
    {
        let n = self.flags.len();
        let mut out: Vec<Flag> = Vec::new();
        let mut i: usize = 0;
        while i < n
            invariant
                n == self.flags@.len(),
                i <= n,
                out@.len() == i,
                forall|j: int| 0 <= j < i ==> flag_eqv(out@[j], self.flags@[j]),
            decreases n - i,
        {
            out.push(self.flags[i].clone());
            i += 1;
        }
        out
    }
}


/// One parser step's outcome: the values map afterwards, the parser's
/// argument index, the next argument position, whether the error sink was
/// written, and the error message if the step failed.
pub struct StepOut {
    pub values: Map<Seq<char>, Seq<char>>,
    pub index: int,
    pub pos: int,
    pub err_arg: Option<int>,
    pub error: Option<Seq<char>>,
}

/// A whole parse's outcome.
pub struct ParseOut {
    pub values: Map<Seq<char>, Seq<char>>,
    pub index: int,
    pub err_arg: Option<int>,
    pub rest: Seq<Seq<char>>,
    pub error: Option<Seq<char>>,
}

/// The negation prefix `no-` as a character sequence whose length is
/// definitionally known.
pub open spec fn negation_prefix() -> Seq<char> {
    seq!['n', 'o', '-']
}

/// Name resolution: follow aliases (bounded by `fuel`), then direct
/// flags, then a `no-` prefix meaning negation.
pub open spec fn resolve_spec(
    flags: Seq<Flag>,
    aliases: Seq<(String, String)>,
    name: Seq<char>,
    fuel: nat,
) -> Option<(Flag, bool)>
    decreases fuel, name.len(),
{
    if amap(aliases).contains_key(name) {
        if fuel == 0 {
            Option::None
        } else {
            resolve_spec(flags, aliases, amap(aliases)[name], (fuel - 1) as nat)
        }
    } else if has_long(flags, name) {
        Option::Some((long_at(flags, name), false))
    } else if is_prefix_of(negation_prefix(), name) {
        match resolve_spec(flags, aliases, name.skip(3), fuel) {
            Option::Some(p) => Option::Some((p.0, true)),
            Option::None => Option::None,
        }
    } else {
        Option::None
    }
}

/// The result of `--flag` handling: mirrors the executable handler.
pub open spec fn long_flag_spec(
    flags: Seq<Flag>,
    aliases: Seq<(String, String)>,
    values: Map<Seq<char>, Seq<char>>,
    index0: int,
    arg: Seq<char>,
    args: Seq<Seq<char>>,
    pos0: int,
) -> StepOut {
    match resolve_spec(flags, aliases, arg.skip(2), aliases.len() as nat) {
        Option::None => StepOut {
            values,
            index: index0,
            pos: pos0,
            err_arg: Option::Some(index0),
            error: Option::Some("Unknown flag: "@ + arg),
        },
        Option::Some(p) => {
            let flag = p.0;
            let neg = p.1;
            if flag.takes_value is Some {
                if neg {
                    StepOut {
                        values,
                        index: index0,
                        pos: pos0,
                        err_arg: Option::Some(index0),
                        error: Option::Some(
                            "--no-"@ + flag.long@ + " is not valid for flag that takes a value"@,
                        ),
                    }
                } else if pos0 < args.len() {
                    StepOut {
                        values: values.insert(flag.long@, args[pos0]),
                        index: pos0,
                        pos: pos0 + 1,
                        err_arg: Option::None,
                        error: Option::None,
                    }
                } else {
                    StepOut {
                        values,
                        index: index0,
                        pos: pos0,
                        err_arg: Option::Some(index0),
                        error: Option::Some("Flag --"@ + flag.long@ + " requires a value"@),
                    }
                }
            } else if neg {
                StepOut {
                    values: values.remove(flag.long@),
                    index: index0,
                    pos: pos0,
                    err_arg: Option::None,
                    error: Option::None,
                }
            } else {
                StepOut {
                    values: values.insert(flag.long@, "true"@),
                    index: index0,
                    pos: pos0,
                    err_arg: Option::None,
                    error: Option::None,
                }
            }
        },
    }
}

/// `v` followed by the remaining arguments from `from` on, separated by
/// single spaces.
pub open spec fn joined(v: Seq<char>, args: Seq<Seq<char>>, from: int) -> Seq<char>
    decreases args.len() - from,
{
    if from < 0 || from >= args.len() {
        v
    } else {
        joined(v + " "@ + args[from], args, from + 1)
    }
}

/// The result of a `-abc` argument's handling, starting at character `i`:
/// mirrors the executable handler.
pub open spec fn short_flags_spec(
    flags: Seq<Flag>,
    aliases: Seq<(String, String)>,
    values: Map<Seq<char>, Seq<char>>,
    index0: int,
    chars: Seq<char>,
    i: int,
    args: Seq<Seq<char>>,
    pos0: int,
) -> StepOut
    decreases chars.len() - i,
{
    if i < 0 || i >= chars.len() {
        StepOut { values, index: index0, pos: pos0, err_arg: Option::None, error: Option::None }
    } else {
        let c = chars[i];
        if !has_short(flags, c) {
            StepOut {
                values,
                index: index0,
                pos: pos0,
                err_arg: Option::Some(index0),
                error: Option::Some("Unknown flag: -"@ + seq![c]),
            }
        } else {
            match resolve_spec(flags, aliases, short_at(flags, c).long@, aliases.len() as nat) {
                Option::None => StepOut {
                    values,
                    index: index0,
                    pos: pos0,
                    err_arg: Option::Some(index0),
                    error: Option::Some("Unknown flag: -"@ + seq![c]),
                },
                Option::Some(p) => {
                    let flag = p.0;
                    let neg = p.1;
                    if flag.takes_value is Some {
                        if i + 1 < chars.len() {
                            let v = if c == '-' {
                                joined(chars.skip(i + 1), args, pos0)
                            } else {
                                chars.skip(i + 1)
                            };
                            StepOut {
                                values: values.insert(flag.long@, v),
                                index: index0,
                                pos: if c == '-' { args.len() as int } else { pos0 },
                                err_arg: Option::None,
                                error: Option::None,
                            }
                        } else if pos0 < args.len() {
                            let v = if c == '-' {
                                joined(args[pos0], args, pos0 + 1)
                            } else {
                                args[pos0]
                            };
                            StepOut {
                                values: values.insert(flag.long@, v),
                                index: pos0,
                                pos: if c == '-' { args.len() as int } else { pos0 + 1 },
                                err_arg: Option::None,
                                error: Option::None,
                            }
                        } else {
                            StepOut {
                                values,
                                index: index0,
                                pos: pos0,
                                err_arg: Option::Some(index0),
                                error: Option::Some("Flag -"@ + seq![c] + " requires a value"@),
                            }
                        }
                    } else if neg {
                        short_flags_spec(
                            flags,
                            aliases,
                            values.remove(flag.long@),
                            index0,
                            chars,
                            i + 1,
                            args,
                            pos0,
                        )
                    } else {
                        short_flags_spec(
                            flags,
                            aliases,
                            values.insert(flag.long@, "true"@),
                            index0,
                            chars,
                            i + 1,
                            args,
                            pos0,
                        )
                    }
                },
            }
        }
    }
}

/// The position a short-flag step ends at stays within the argument list.
pub proof fn lemma_short_pos_bounds(
    flags: Seq<Flag>,
    aliases: Seq<(String, String)>,
    values: Map<Seq<char>, Seq<char>>,
    index0: int,
    chars: Seq<char>,
    i: int,
    args: Seq<Seq<char>>,
    pos0: int,
)
    requires
        0 <= pos0 <= args.len(),
    ensures
        pos0 <= short_flags_spec(flags, aliases, values, index0, chars, i, args, pos0).pos
            <= args.len(),
        short_flags_spec(flags, aliases, values, index0, chars, i, args, pos0).error is None
            <==> short_flags_spec(flags, aliases, values, index0, chars, i, args, pos0).err_arg
            is None,
    decreases chars.len() - i,
{
    if 0 <= i < chars.len() {
        let c = chars[i];
        if has_short(flags, c) {
            match resolve_spec(flags, aliases, short_at(flags, c).long@, aliases.len() as nat) {
                Option::Some(p) => {
                    if p.0.takes_value is Some {
                    } else if p.1 {
                        lemma_short_pos_bounds(
                            flags,
                            aliases,
                            values.remove(p.0.long@),
                            index0,
                            chars,
                            i + 1,
                            args,
                            pos0,
                        );
                    } else {
                        lemma_short_pos_bounds(
                            flags,
                            aliases,
                            values.insert(p.0.long@, "true"@),
                            index0,
                            chars,
                            i + 1,
                            args,
                            pos0,
                        );
                    }
                },
                Option::None => {},
            }
        }
    }
}

/// Values after defaults are applied: every flag with a default value
/// contributes a binding under its long name.
pub open spec fn defaults_spec(
    flags: Seq<Flag>,
    values: Map<Seq<char>, Seq<char>>,
) -> Map<Seq<char>, Seq<char>>
    decreases flags.len(),
{
    if flags.len() == 0 {
        values
    } else {
        let v1 = defaults_spec(flags.drop_last(), values);
        match flags.last().default_value {
            Option::Some(d) => v1.insert(flags.last().long@, d@),
            Option::None => v1,
        }
    }
}

/// The next loop position after handling the argument at `p`: handlers
/// never move backwards, and the loop never runs past the argument list.
pub open spec fn step_to(p: int, q: int, n: int) -> int {
    let r = if q > p + 1 {
        q
    } else {
        p + 1
    };
    if r > n {
        n
    } else {
        r
    }
}

/// The strict parse loop: stops at the first failing argument.
pub open spec fn parse_loop_spec(
    flags: Seq<Flag>,
    aliases: Seq<(String, String)>,
    values: Map<Seq<char>, Seq<char>>,
    index0: int,
    args: Seq<Seq<char>>,
    pos: int,
    rest: Seq<Seq<char>>,
) -> ParseOut
    decreases args.len() - pos,
{
    if pos < 0 || pos >= args.len() {
        ParseOut { values, index: index0, err_arg: Option::None, rest, error: Option::None }
    } else {
        let arg = args[pos];
        if is_prefix_of("--"@, arg) && arg != "--"@ {
            let so = long_flag_spec(flags, aliases, values, pos, arg, args, pos + 1);
            if so.error is Some {
                ParseOut {
                    values: so.values,
                    index: so.index,
                    err_arg: so.err_arg,
                    rest,
                    error: so.error,
                }
            } else {
                parse_loop_spec(
                    flags,
                    aliases,
                    so.values,
                    so.index,
                    args,
                    step_to(pos, so.pos, args.len() as int),
                    rest,
                )
            }
        } else if is_prefix_of("-"@, arg) {
            if arg != "-"@ {
                let so = short_flags_spec(flags, aliases, values, pos, arg.skip(1), 0, args, pos + 1);
                if so.error is Some {
                    ParseOut {
                        values: so.values,
                        index: so.index,
                        err_arg: so.err_arg,
                        rest,
                        error: so.error,
                    }
                } else {
                    parse_loop_spec(
                        flags,
                        aliases,
                        so.values,
                        so.index,
                        args,
                        step_to(pos, so.pos, args.len() as int),
                        rest,
                    )
                }
            } else {
                parse_loop_spec(flags, aliases, values, pos, args, pos + 1, rest)
            }
        } else {
            parse_loop_spec(flags, aliases, values, pos, args, pos + 1, rest.push(arg))
        }
    }
}

/// The relaxed parse loop: failing or unknown arguments are returned with
/// the non-flag arguments, and everything after `--` is passed through.
pub open spec fn relaxed_loop_spec(
    flags: Seq<Flag>,
    aliases: Seq<(String, String)>,
    values: Map<Seq<char>, Seq<char>>,
    index0: int,
    args: Seq<Seq<char>>,
    pos: int,
    rest: Seq<Seq<char>>,
    dd: bool,
    err0: Option<int>,
) -> ParseOut
    decreases args.len() - pos,
{
    if pos < 0 || pos >= args.len() {
        ParseOut { values, index: index0, err_arg: err0, rest, error: Option::None }
    } else {
        let arg = args[pos];
        if dd || arg == "--"@ {
            relaxed_loop_spec(flags, aliases, values, pos, args, pos + 1, rest.push(arg), true, err0)
        } else if is_prefix_of("--"@, arg) {
            let so = long_flag_spec(flags, aliases, values, pos, arg, args, pos + 1);
            if so.error is Some {
                relaxed_loop_spec(
                    flags,
                    aliases,
                    so.values,
                    so.index,
                    args,
                    step_to(pos, so.pos, args.len() as int),
                    rest.push(arg),
                    dd,
                    so.err_arg,
                )
            } else {
                relaxed_loop_spec(
                    flags,
                    aliases,
                    so.values,
                    so.index,
                    args,
                    step_to(pos, so.pos, args.len() as int),
                    rest,
                    dd,
                    err0,
                )
            }
        } else if is_prefix_of("-"@, arg) && arg != "-"@ {
            let so = short_flags_spec(flags, aliases, values, pos, arg.skip(1), 0, args, pos + 1);
            if so.error is Some {
                relaxed_loop_spec(
                    flags,
                    aliases,
                    so.values,
                    so.index,
                    args,
                    step_to(pos, so.pos, args.len() as int),
                    rest.push(arg),
                    dd,
                    so.err_arg,
                )
            } else {
                relaxed_loop_spec(
                    flags,
                    aliases,
                    so.values,
                    so.index,
                    args,
                    step_to(pos, so.pos, args.len() as int),
                    rest,
                    dd,
                    err0,
                )
            }
        } else {
            relaxed_loop_spec(flags, aliases, values, pos, args, pos + 1, rest.push(arg), dd, err0)
        }
    }
}

impl CommandFlags {
    /// Registers `alias` for the existing flag (or negated flag) `other`.
    /// The alias becomes a flag of its own and an entry in the alias
    /// table; negated targets get a "Do not ..." help text.
    pub fn add_alias(&mut self, short: Option<char>, alias: &str, other: &str)
        requires
            old(self).wf(),
            !amap(old(self).aliases_seq()).contains_key(alias@),
            has_long(
                old(self).flags_seq(),
                if is_prefix_of(negation_prefix(), other@) {
                    other@.skip(3)
                } else {
                    other@
                },
            ),
            long_at(
                old(self).flags_seq(),
                if is_prefix_of(negation_prefix(), other@) {
                    other@.skip(3)
                } else {
                    other@
                },
            ).takes_value is None,
            !has_long(old(self).flags_seq(), alias@),
            short is Some ==> !has_short(old(self).flags_seq(), short->0),
        ensures
            final(self).wf(),
            final(self).aliases_seq().len() == old(self).aliases_seq().len() + 1,
            amap(final(self).aliases_seq()) == amap(old(self).aliases_seq()).insert(
                alias@,
                other@,
            ),
            final(self).flags_seq().len() == old(self).flags_seq().len() + 1,
            has_long(final(self).flags_seq(), alias@),
            ({
                let base = long_at(
                    old(self).flags_seq(),
                    if is_prefix_of(negation_prefix(), other@) {
                        other@.skip(3)
                    } else {
                        other@
                    },
                );
                let f = long_at(final(self).flags_seq(), alias@);
                f.short == short && f.long@ == alias@ && f.takes_value is None
                    && f.default_value is None && f.help@ == if is_prefix_of(negation_prefix(), other@) {
                    "Do not "@ + lower_of(base.help@)
                } else {
                    base.help@
                }
            }),
            forall|k: Seq<char>|
                k != alias@ ==> (has_long(final(self).flags_seq(), k) == has_long(
                    old(self).flags_seq(),
                    k,
                ) && (has_long(old(self).flags_seq(), k) ==> long_at(
                    final(self).flags_seq(),
                    k,
                ) == long_at(old(self).flags_seq(), k))),
            forall|c: char|
                has_short(final(self).flags_seq(), c) == (has_short(old(self).flags_seq(), c)
                    || short == Option::Some(c)),
            forall|c: char|
                has_short(old(self).flags_seq(), c) ==> short_at(final(self).flags_seq(), c)
                    == short_at(old(self).flags_seq(), c),
            short is Some ==> short_at(final(self).flags_seq(), short->0) == long_at(
                final(self).flags_seq(),
                alias@,
            ),
            final(self).values_map() == old(self).values_map(),
            final(self).index_spec() == old(self).index_spec(),
    {
        let negated = str_starts_with(other, "no-");
        proof {
            reveal_strlit("no-");
            assert("no-"@ =~= negation_prefix());
        }
        let base_name = if negated {
            let n = other.unicode_len();
            other.substring_char(3, n)
        } else {
            other
        };
        proof {
            if negated {
                assert(base_name@ =~= other@.skip(3));
            }
            assert(base_name@ == if is_prefix_of(negation_prefix(), other@) {
                other@.skip(3)
            } else {
                other@
            });
        }
        let i = match self.find_long(base_name) {
            Option::Some(i) => i,
            Option::None => {
                proof {
                    assert(false);
                }
                0
            },
        };
        let help = if negated {
            let lowered = to_lower(self.flags[i].help.as_str());
            concat2("Do not ", lowered.as_str())
        } else {
            self.flags[i].help.clone()
        };
        ainsert(&mut self.aliases, alias, other.to_owned());
        self.add(short, alias, None, help.as_str());
    }

    /// A fresh table holding `help` plus an enabled `follow-links` flag
    /// with its `no-dereference` negating alias.
    pub fn with_follow_links() -> (r: Self)
        ensures
            r.wf(),
            r.flags_seq().len() == 3,
            has_long(r.flags_seq(), "help"@),
            has_long(r.flags_seq(), "follow-links"@),
            has_long(r.flags_seq(), "no-dereference"@),
            oview(long_at(r.flags_seq(), "follow-links"@).default_value) == Option::Some("true"@),
            amap(r.aliases_seq()) == Map::<Seq<char>, Seq<char>>::empty().insert(
                "no-dereference"@,
                "no-follow-links"@,
            ),
            r.values_map() == Map::<Seq<char>, Seq<char>>::empty(),
    {
        proof {
            reveal_strlit("help");
            reveal_strlit("follow-links");
            reveal_strlit("no-dereference");
            reveal_strlit("no-follow-links");
            reveal_strlit("no-");
        }
        let mut flags = Self::with_help();
        flags.add_flag_enabled('L', "follow-links", "Follow symbolic links");
        proof {
            assert("no-"@ =~= negation_prefix());
            assert(is_prefix_of(negation_prefix(), "no-follow-links"@)) by {
                assert("no-follow-links"@.subrange(0, 3) =~= negation_prefix());
            }
            assert("no-follow-links"@.skip(3) =~= "follow-links"@);
        }
        flags.add_alias(Some('P'), "no-dereference", "no-follow-links");
        flags
    }

    /// Follows aliases (at most `fuel` redirections), then looks the name
    /// up directly, then tries stripping a `no-` negation prefix.
    fn resolve_fueled(&self, name: &str, fuel: usize) -> (r: Option<(Flag, bool)>)
        requires
            self.wf(),
        ensures
            match (r, resolve_spec(self.flags_seq(), self.aliases_seq(), name@, fuel as nat)) {
                (Option::Some(p), Option::Some(q)) => flag_eqv(p.0, q.0) && p.1 == q.1,
                (Option::None, Option::None) => true,
                _ => false,
            },
        decreases fuel, name@.len(),
    {
        match aget(&self.aliases, name) {
            Option::Some(other) => {
                if fuel == 0 {
                    Option::None
                } else {
                    let o = other.clone();
                    self.resolve_fueled(o.as_str(), fuel - 1)
                }
            },
            Option::None => {
                proof {
                    reveal_strlit("no-");
                    assert("no-"@ =~= negation_prefix());
                }
                match self.find_long(name) {
                    Option::Some(i) => Option::Some((self.flags[i].clone(), false)),
                    Option::None => {
                        if str_starts_with(name, "no-") {
                            let n = name.unicode_len();
                            let stripped = name.substring_char(3, n);
                            proof {
                                assert(stripped@ =~= name@.skip(3));
                            }
                            match self.resolve_fueled(stripped, fuel) {
                                Option::Some(p) => Option::Some((p.0, true)),
                                Option::None => Option::None,
                            }
                        } else {
                            Option::None
                        }
                    },
                }
            },
        }
    }

    /// Resolves a flag name as the parser sees it, with enough fuel for
    /// any acyclic alias chain.
    fn resolve_name(&self, name: &str) -> (r: Option<(Flag, bool)>)
        requires
            self.wf(),
        ensures
            match (r, resolve_spec(
                self.flags_seq(),
                self.aliases_seq(),
                name@,
                self.aliases_seq().len() as nat,
            )) {
                (Option::Some(p), Option::Some(q)) => flag_eqv(p.0, q.0) && p.1 == q.1,
                (Option::None, Option::None) => true,
                _ => false,
            },
    {
        let fuel = self.aliases.len();
        self.resolve_fueled(name, fuel)
    }
}


/// Blanks of the given length.
pub open spec fn spaces(n: int) -> Seq<char>
    decreases n,
{
    if n <= 0 {
        Seq::empty()
    } else {
        spaces(n - 1).push(' ')
    }
}

/// `s` padded on the right with blanks to at least width `w`.
pub open spec fn pad_right(s: Seq<char>, w: int) -> Seq<char> {
    if s.len() >= w {
        s
    } else {
        s + spaces(w - s.len())
    }
}

/// One line of help text for a flag.
pub open spec fn help_line(f: Flag) -> Seq<char> {
    let short_part = match f.short {
        Option::Some(c) => "-"@ + seq![c] + ", "@,
        Option::None => Seq::<char>::empty(),
    };
    let long_text = match f.takes_value {
        Option::Some(n) => f.long@ + " <"@ + n@ + ">"@,
        Option::None => f.long@,
    };
    let default_part = match f.default_value {
        Option::Some(d) => " (default: "@ + d@ + ")"@,
        Option::None => Seq::<char>::empty(),
    };
    pad_right(short_part, 4) + "--"@ + pad_right(long_text, 20) + " "@ + f.help@ + default_part
        + "\n"@
}

/// The whole help text: one line per flag, in table order.
pub open spec fn help_spec(s: Seq<Flag>) -> Seq<char>
    decreases s.len(),
{
    if s.len() == 0 {
        Seq::empty()
    } else {
        help_spec(s.drop_last()) + help_line(s.last())
    }
}

/// Appends `piece` padded on the right with blanks to width `width`.
#[verifier::loop_isolation(false)]
fn append_padded(out: &mut String, piece: &str, width: usize)
    ensures
        final(out)@ == old(out)@ + pad_right(piece@, width as int),
{
    let ghost base = out@;
    out.append(piece);
    let n = piece.unicode_len();
    let mut l = n;
    while l < width
        invariant
            n == piece@.len(),
            n <= l,
            l <= width || l == n,
            out@ == base + piece@ + spaces(l - n),
        decreases width - l,
    {
        push_char(out, ' ');
        l += 1;
    }
    proof {
        assert(base + piece@ + spaces(0) =~= base + piece@);
        if piece@.len() >= width {
            assert(out@ =~= base + pad_right(piece@, width as int));
        } else {
            assert(out@ =~= base + pad_right(piece@, width as int));
        }
    }
}

/// Joins `value` with the remaining arguments, separated by blanks.
#[verifier::loop_isolation(false)]
fn join_rest(value: String, args: &Vec<String>, from: usize) -> (r: String)
    requires
        from <= args@.len(),
    ensures
        r@ == joined(value@, dv(args@), from as int),
{
    let ghost v0 = value@;
    let mut out = value;
    let mut k = from;
    while k < args.len()
        invariant
            from <= k <= args@.len(),
            joined(v0, dv(args@), from as int) == joined(out@, dv(args@), k as int),
        decreases args@.len() - k,
    {
        proof {
            assert(dv(args@)[k as int] == args@[k as int]@);
        }
        out.append(" ");
        out.append(args[k].as_str());
        k += 1;
    }
    out
}

impl CommandFlags {
    /// Handles one `--flag` argument, possibly consuming the next
    /// argument as its value.
    fn handle_long_flag(
        &mut self,
        ctx: &mut Context,
        arg: &str,
        args: &Vec<String>,
        pos: &mut usize,
    ) -> (r: Result<(), String>)
        requires
            old(self).wf(),
            arg@.len() >= 2,
            *old(pos) <= args@.len(),
        ensures
            final(self).wf(),
            final(self).flags_seq() == old(self).flags_seq(),
            final(self).aliases_seq() == old(self).aliases_seq(),
            *final(pos) <= args@.len(),
            ({
                let so = long_flag_spec(
                    old(self).flags_seq(),
                    old(self).aliases_seq(),
                    old(self).values_map(),
                    old(self).index_spec(),
                    arg@,
                    dv(args@),
                    *old(pos) as int,
                );
                &&& final(self).values_map() == so.values
                &&& final(self).index_spec() == so.index
                &&& *final(pos) as int == so.pos
                &&& match so.err_arg {
                    Option::Some(e) => final(ctx).err_arg as int == e,
                    Option::None => final(ctx).err_arg == old(ctx).err_arg,
                }
                &&& match (r, so.error) {
                    (Result::Ok(u), Option::None) => true,
                    (Result::Err(m), Option::Some(ms)) => m@ == ms,
                    _ => false,
                }
            }),
    {
        let alen = arg.unicode_len();
        let name = arg.substring_char(2, alen);
        proof {
            assert(name@ =~= arg@.skip(2));
        }
        match self.resolve_name(name) {
            Option::Some((flag, is_negation)) => {
                if flag.takes_value.is_some() {
                    if is_negation {
                        ctx.set_err_arg(self.index);
                        Result::Err(
                            concat3(
                                "--no-",
                                flag.long.as_str(),
                                " is not valid for flag that takes a value",
                            ),
                        )
                    } else if *pos < args.len() {
                        let i = *pos;
                        self.index = i;
                        *pos = i + 1;
                        proof {
                            assert(dv(args@)[i as int] == args@[i as int]@);
                        }
                        ainsert(&mut self.values, flag.long.as_str(), args[i].clone());
                        Result::Ok(())
                    } else {
                        ctx.set_err_arg(self.index);
                        Result::Err(concat3("Flag --", flag.long.as_str(), " requires a value"))
                    }
                } else if is_negation {
                    aremove(&mut self.values, flag.long.as_str());
                    Result::Ok(())
                } else {
                    ainsert(&mut self.values, flag.long.as_str(), "true".to_owned());
                    Result::Ok(())
                }
            },
            Option::None => {
                ctx.set_err_arg(self.index);
                Result::Err(concat2("Unknown flag: ", arg))
            },
        }
    }

    /// Handles one `-abc` argument: each character is a short flag, and a
    /// value-taking flag consumes the rest of the argument or the next one.
    #[verifier::loop_isolation(false)]
    fn handle_short_flags(
        &mut self,
        ctx: &mut Context,
        arg: &str,
        args: &Vec<String>,
        pos: &mut usize,
    ) -> (r: Result<(), String>)
        requires
            old(self).wf(),
            arg@.len() >= 1,
            *old(pos) <= args@.len(),
        ensures
            final(self).wf(),
            final(self).flags_seq() == old(self).flags_seq(),
            final(self).aliases_seq() == old(self).aliases_seq(),
            *final(pos) <= args@.len(),
            ({
                let so = short_flags_spec(
                    old(self).flags_seq(),
                    old(self).aliases_seq(),
                    old(self).values_map(),
                    old(self).index_spec(),
                    arg@.skip(1),
                    0,
                    dv(args@),
                    *old(pos) as int,
                );
                &&& final(self).values_map() == so.values
                &&& final(self).index_spec() == so.index
                &&& *final(pos) as int == so.pos
                &&& match so.err_arg {
                    Option::Some(e) => final(ctx).err_arg as int == e,
                    Option::None => final(ctx).err_arg == old(ctx).err_arg,
                }
                &&& match (r, so.error) {
                    (Result::Ok(u), Option::None) => true,
                    (Result::Err(m), Option::Some(ms)) => m@ == ms,
                    _ => false,
                }
            }),
    {
        let alen = arg.unicode_len();
        let mut chars: Vec<char> = Vec::new();
        let mut k: usize = 1;
        while k < alen
            invariant
                1 <= k <= alen || (alen == 0 && k == 1),
                alen == arg@.len(),
                alen >= 1,
                chars@.len() == k - 1,
                forall|j: int| 0 <= j < chars@.len() ==> chars@[j] == arg@[j + 1],
            decreases alen - k,
        {
            chars.push(arg.get_char(k));
            k += 1;
        }
        proof {
            assert(chars@ =~= arg@.skip(1));
        }
        let ghost f0 = self.flags@;
        let ghost a0 = self.aliases@;
        let ghost v0 = amap(self.values@);
        let ghost idx0 = self.index as int;
        let ghost pos0 = *pos as int;
        let ghost ctx0 = *ctx;
        let ghost argsv = dv(args@);
        let n = chars.len();
        let mut i: usize = 0;
        while i < n
            invariant
                self.wf(),
                n == chars@.len(),
                i <= n,
                self.flags@ == f0,
                self.aliases@ == a0,
                self.index as int == idx0,
                *pos as int == pos0,
                pos0 <= args@.len(),
                *ctx == ctx0,
                argsv == dv(args@),
                chars@ == arg@.skip(1),
                short_flags_spec(f0, a0, v0, idx0, chars@, 0, argsv, pos0) == short_flags_spec(
                    f0,
                    a0,
                    amap(self.values@),
                    idx0,
                    chars@,
                    i as int,
                    argsv,
                    pos0,
                ),
            decreases n - i,
        {
            let c = chars[i];
            match self.find_short(c) {
                Option::None => {
                    ctx.set_err_arg(self.index);
                    let mut m = "Unknown flag: -".to_owned();
                    push_char(&mut m, c);
                    return Result::Err(m);
                },
                Option::Some(fi) => {
                    let base_long = self.flags[fi].long.clone();
                    match self.resolve_name(base_long.as_str()) {
                        Option::None => {
                            ctx.set_err_arg(self.index);
                            let mut m = "Unknown flag: -".to_owned();
                            push_char(&mut m, c);
                            return Result::Err(m);
                        },
                        Option::Some((flag, is_negation)) => {
                            if flag.takes_value.is_some() {
                                if i + 1 < n {
                                    let raw = arg.substring_char(i + 2, alen);
                                    proof {
                                        assert(raw@ =~= chars@.skip(i + 1));
                                    }
                                    let value = if c == '-' {
                                        let j = *pos;
                                        *pos = args.len();
                                        join_rest(raw.to_owned(), args, j)
                                    } else {
                                        raw.to_owned()
                                    };
                                    ainsert(&mut self.values, flag.long.as_str(), value);
                                    return Result::Ok(());
                                } else if *pos < args.len() {
                                    let j = *pos;
                                    self.index = j;
                                    *pos = j + 1;
                                    proof {
                                        assert(dv(args@)[j as int] == args@[j as int]@);
                                    }
                                    let value = if c == '-' {
                                        let v2 = join_rest(args[j].clone(), args, j + 1);
                                        *pos = args.len();
                                        v2
                                    } else {
                                        args[j].clone()
                                    };
                                    ainsert(&mut self.values, flag.long.as_str(), value);
                                    return Result::Ok(());
                                } else {
                                    ctx.set_err_arg(self.index);
                                    let mut m = "Flag -".to_owned();
                                    push_char(&mut m, c);
                                    m.append(" requires a value");
                                    return Result::Err(m);
                                }
                            } else if is_negation {
                                aremove(&mut self.values, flag.long.as_str());
                            } else {
                                ainsert(&mut self.values, flag.long.as_str(), "true".to_owned());
                            }
                        },
                    }
                },
            }
            i += 1;
        }
        Result::Ok(())
    }

    /// Copies every registered default value into the value table.
    #[verifier::loop_isolation(false)]
    fn set_defaults(&mut self)
        requires
            old(self).wf(),
        ensures
            final(self).wf(),
            final(self).flags_seq() == old(self).flags_seq(),
            final(self).aliases_seq() == old(self).aliases_seq(),
            final(self).index_spec() == old(self).index_spec(),
            final(self).values_map() == defaults_spec(
                old(self).flags_seq(),
                old(self).values_map(),
            ),
    {
        let ghost v0 = amap(self.values@);
        let n = self.flags.len();
        let mut i: usize = 0;
        while i < n
            invariant
                self.wf(),
                n == self.flags@.len(),
                i <= n,
                self.flags@ == old(self).flags@,
                self.aliases@ == old(self).aliases@,
                self.index == old(self).index,
                amap(self.values@) == defaults_spec(self.flags@.take(i as int), v0),
            decreases n - i,
        {
            let d = match &self.flags[i].default_value {
                Option::Some(d) => Option::Some(d.clone()),
                Option::None => Option::None,
            };
            let ghost before = amap(self.values@);
            match d {
                Option::Some(dval) => {
                    let key = self.flags[i].long.clone();
                    ainsert(&mut self.values, key.as_str(), dval);
                },
                Option::None => {},
            }
            proof {
                assert(self.flags@.take(i + 1).drop_last() =~= self.flags@.take(i as int));
                assert(self.flags@.take(i + 1).last() == self.flags@[i as int]);
            }
            i += 1;
        }
        proof {
            assert(self.flags@.take(n as int) =~= self.flags@);
        }
    }

    /// Parses the arguments: sets defaults, then handles each argument in
    /// turn, stopping with an error at the first unknown flag or missing
    /// value. Returns the non-flag arguments.
    #[verifier::loop_isolation(false)]
    pub fn parse(&mut self, ctx: &mut Context, args: &Vec<String>) -> (r: Result<
        Vec<String>,
        String,
    >)
        requires
            old(self).wf(),
        ensures
            final(self).wf(),
            final(self).flags_seq() == old(self).flags_seq(),
            final(self).aliases_seq() == old(self).aliases_seq(),
            ({
                let po = parse_loop_spec(
                    old(self).flags_seq(),
                    old(self).aliases_seq(),
                    defaults_spec(old(self).flags_seq(), old(self).values_map()),
                    old(self).index_spec(),
                    dv(args@),
                    0,
                    Seq::empty(),
                );
                &&& final(self).values_map() == po.values
                &&& final(self).index_spec() == po.index
                &&& match po.err_arg {
                    Option::Some(e) => final(ctx).err_arg as int == e,
                    Option::None => final(ctx).err_arg == old(ctx).err_arg,
                }
                &&& match (r, po.error) {
                    (Result::Ok(v), Option::None) => dv(v@) == po.rest,
                    (Result::Err(m), Option::Some(ms)) => m@ == ms,
                    _ => false,
                }
            }),
    {
        proof {
            reveal_strlit("--");
            reveal_strlit("-");
        }
        self.set_defaults();
        let ghost f0 = self.flags@;
        let ghost a0 = self.aliases@;
        let ghost vd = amap(self.values@);
        let ghost idx0 = self.index as int;
        let ghost argsv = dv(args@);
        let ghost ctx0 = *ctx;
        let mut pos: usize = 0;
        let mut non_flag_args: Vec<String> = Vec::new();
        proof {
            assert(dv(non_flag_args@) =~= Seq::<Seq<char>>::empty());
        }
        while pos < args.len()
            invariant
                self.wf(),
                self.flags@ == f0,
                self.aliases@ == a0,
                pos <= args@.len(),
                argsv == dv(args@),
                *ctx == ctx0,
                parse_loop_spec(f0, a0, vd, idx0, argsv, 0, Seq::empty()) == parse_loop_spec(
                    f0,
                    a0,
                    amap(self.values@),
                    self.index as int,
                    argsv,
                    pos as int,
                    dv(non_flag_args@),
                ),
            decreases args@.len() - pos,
        {
            let ghost vcur = amap(self.values@);
            let ghost poscur = pos as int;
            let ghost restcur = dv(non_flag_args@);
            let i = pos;
            pos += 1;
            self.index = i;
            let arg = args[i].clone();
            proof {
                assert(argsv[i as int] == args@[i as int]@);
            }
            if str_starts_with(arg.as_str(), "--") && !str_eq(arg.as_str(), "--") {
                match self.handle_long_flag(ctx, arg.as_str(), args, &mut pos) {
                    Result::Ok(u) => {
                        proof {
                            let so = long_flag_spec(
                                f0,
                                a0,
                                vcur,
                                poscur,
                                argsv[poscur],
                                argsv,
                                poscur + 1,
                            );
                            assert(step_to(poscur, so.pos, argsv.len() as int) == so.pos);
                        }
                    },
                    Result::Err(m) => {
                        return Result::Err(m);
                    },
                }
            } else if str_starts_with(arg.as_str(), "-") {
                if !str_eq(arg.as_str(), "-") {
                    match self.handle_short_flags(ctx, arg.as_str(), args, &mut pos) {
                        Result::Ok(u) => {
                            proof {
                                lemma_short_pos_bounds(
                                    f0,
                                    a0,
                                    vcur,
                                    poscur,
                                    argsv[poscur].skip(1),
                                    0,
                                    argsv,
                                    poscur + 1,
                                );
                                let so = short_flags_spec(
                                    f0,
                                    a0,
                                    vcur,
                                    poscur,
                                    argsv[poscur].skip(1),
                                    0,
                                    argsv,
                                    poscur + 1,
                                );
                                assert(step_to(poscur, so.pos, argsv.len() as int) == so.pos);
                            }
                        },
                        Result::Err(m) => {
                            return Result::Err(m);
                        },
                    }
                }
            } else {
                non_flag_args.push(arg);
                proof {
                    assert(dv(non_flag_args@) =~= restcur.push(argsv[poscur]));
                }
            }
        }
        Result::Ok(non_flag_args)
    }

    /// Parses the arguments leniently: unknown flags, missing values and
    /// everything after `--` are returned with the non-flag arguments.
    #[verifier::loop_isolation(false)]
    pub fn parse_relaxed(&mut self, ctx: &mut Context, args: &Vec<String>) -> (r: Vec<String>)
        requires
            old(self).wf(),
        ensures
            final(self).wf(),
            final(self).flags_seq() == old(self).flags_seq(),
            final(self).aliases_seq() == old(self).aliases_seq(),
            ({
                let po = relaxed_loop_spec(
                    old(self).flags_seq(),
                    old(self).aliases_seq(),
                    defaults_spec(old(self).flags_seq(), old(self).values_map()),
                    old(self).index_spec(),
                    dv(args@),
                    0,
                    Seq::empty(),
                    false,
                    Option::None,
                );
                &&& final(self).values_map() == po.values
                &&& final(self).index_spec() == po.index
                &&& match po.err_arg {
                    Option::Some(e) => final(ctx).err_arg as int == e,
                    Option::None => final(ctx).err_arg == old(ctx).err_arg,
                }
                &&& dv(r@) == po.rest
            }),
    {
        proof {
            reveal_strlit("--");
            reveal_strlit("-");
        }
        self.set_defaults();
        let ghost f0 = self.flags@;
        let ghost a0 = self.aliases@;
        let ghost vd = amap(self.values@);
        let ghost idx0 = self.index as int;
        let ghost argsv = dv(args@);
        let ghost ctx0 = *ctx;
        let ghost mut erracc: Option<int> = Option::None;
        let mut encountered_double_dash = false;
        let mut pos: usize = 0;
        let mut non_flag_args: Vec<String> = Vec::new();
        proof {
            assert(dv(non_flag_args@) =~= Seq::<Seq<char>>::empty());
        }
        while pos < args.len()
            invariant
                self.wf(),
                self.flags@ == f0,
                self.aliases@ == a0,
                pos <= args@.len(),
                argsv == dv(args@),
                match erracc {
                    Option::Some(e) => ctx.err_arg as int == e,
                    Option::None => *ctx == ctx0,
                },
                relaxed_loop_spec(f0, a0, vd, idx0, argsv, 0, Seq::empty(), false, Option::None)
                    == relaxed_loop_spec(
                    f0,
                    a0,
                    amap(self.values@),
                    self.index as int,
                    argsv,
                    pos as int,
                    dv(non_flag_args@),
                    encountered_double_dash,
                    erracc,
                ),
            decreases args@.len() - pos,
        {
            let ghost vcur = amap(self.values@);
            let ghost poscur = pos as int;
            let ghost restcur = dv(non_flag_args@);
            let i = pos;
            pos += 1;
            self.index = i;
            let arg = args[i].clone();
            proof {
                assert(argsv[i as int] == args@[i as int]@);
            }
            if encountered_double_dash || str_eq(arg.as_str(), "--") {
                encountered_double_dash = true;
                non_flag_args.push(arg);
                proof {
                    assert(dv(non_flag_args@) =~= restcur.push(argsv[poscur]));
                }
            } else if str_starts_with(arg.as_str(), "--") {
                let res = self.handle_long_flag(ctx, arg.as_str(), args, &mut pos);
                proof {
                    let so = long_flag_spec(f0, a0, vcur, poscur, argsv[poscur], argsv, poscur + 1);
                    assert(step_to(poscur, so.pos, argsv.len() as int) == so.pos);
                }
                if res.is_err() {
                    non_flag_args.push(arg);
                    proof {
                        let so = long_flag_spec(
                            f0,
                            a0,
                            vcur,
                            poscur,
                            argsv[poscur],
                            argsv,
                            poscur + 1,
                        );
                        erracc = so.err_arg;
                        assert(dv(non_flag_args@) =~= restcur.push(argsv[poscur]));
                    }
                }
            } else if str_starts_with(arg.as_str(), "-") && !str_eq(arg.as_str(), "-") {
                let res = self.handle_short_flags(ctx, arg.as_str(), args, &mut pos);
                proof {
                    lemma_short_pos_bounds(
                        f0,
                        a0,
                        vcur,
                        poscur,
                        argsv[poscur].skip(1),
                        0,
                        argsv,
                        poscur + 1,
                    );
                    let so = short_flags_spec(
                        f0,
                        a0,
                        vcur,
                        poscur,
                        argsv[poscur].skip(1),
                        0,
                        argsv,
                        poscur + 1,
                    );
                    assert(step_to(poscur, so.pos, argsv.len() as int) == so.pos);
                }
                if res.is_err() {
                    non_flag_args.push(arg);
                    proof {
                        let so = short_flags_spec(
                            f0,
                            a0,
                            vcur,
                            poscur,
                            argsv[poscur].skip(1),
                            0,
                            argsv,
                            poscur + 1,
                        );
                        erracc = so.err_arg;
                        assert(dv(non_flag_args@) =~= restcur.push(argsv[poscur]));
                    }
                }
            } else {
                non_flag_args.push(arg);
                proof {
                    assert(dv(non_flag_args@) =~= restcur.push(argsv[poscur]));
                }
            }
        }
        non_flag_args
    }

    /// Renders the help text, one line per flag in long-name order.
    #[verifier::loop_isolation(false)]
    #[verifier::rlimit(50)]
    pub fn help(&self) -> (r: String)
        requires
            self.wf(),
        ensures
            r@ == help_spec(self.flags_seq()),
    {
        let mut out = String::new();
        let n = self.flags.len();
        let mut i: usize = 0;
        while i < n
            invariant
                n == self.flags@.len(),
                i <= n,
                out@ == help_spec(self.flags@.take(i as int)),
            decreases n - i,
        {
            let f = &self.flags[i];
            let short_part: String = match f.short {
                Option::Some(c) => {
                    let mut sp = "-".to_owned();
                    push_char(&mut sp, c);
                    sp.append(", ");
                    sp
                },
                Option::None => String::new(),
            };
            append_padded(&mut out, short_part.as_str(), 4);
            out.append("--");
            let long_text: String = match &f.takes_value {
                Option::Some(nm) => {
                    let mut t = f.long.clone();
                    t.append(" <");
                    t.append(nm.as_str());
                    t.append(">");
                    t
                },
                Option::None => f.long.clone(),
            };
            append_padded(&mut out, long_text.as_str(), 20);
            out.append(" ");
            out.append(f.help.as_str());
            match &f.default_value {
                Option::Some(d) => {
                    out.append(" (default: ");
                    out.append(d.as_str());
                    out.append(")");
                },
                Option::None => {},
            }
            out.append("\n");
            proof {
                assert(self.flags@.take(i + 1).drop_last() =~= self.flags@.take(i as int));
                assert(self.flags@.take(i + 1).last() == self.flags@[i as int]);
            }
            i += 1;
        }
        proof {
            assert(self.flags@.take(n as int) =~= self.flags@);
        }
        out
    }
}

} // verus!


