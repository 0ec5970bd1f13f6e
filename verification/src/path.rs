//! Model paths: a flag for absoluteness plus a list of components. The
//! copy engine and the link resolver work on these; the surrounding
//! program converts real paths to and from them.

use vstd::prelude::*;
use crate::strutil::{dv, lex_le, str_eq, str_le, str_starts_with, push_char};
use crate::strutil::{lemma_lex_le_total, lemma_lex_le_antisymmetric, lemma_lex_le_transitive};

verus! {

/// The mathematical value of a path: absoluteness and component views.
pub type PathV = (bool, Seq<Seq<char>>);

/// A filesystem path, split into components.
pub struct FsPath {
    pub absolute: bool,
    pub parts: Vec<String>,
}

impl FsPath {
    /// The path's mathematical value.
    pub open spec fn pv(self) -> PathV {
        (self.absolute, dv(self.parts@))
    }

    pub fn new(absolute: bool) -> (r: Self)
        ensures
            r.pv() == (absolute, Seq::<Seq<char>>::empty()),
    {
        let r = FsPath { absolute, parts: Vec::new() };
        proof {
            assert(dv(r.parts@) =~= Seq::<Seq<char>>::empty());
        }
        r
    }

    /// Appends one component.
    pub fn push_part(&mut self, name: &str)
        ensures
            final(self).pv() == (old(self).absolute, dv(old(self).parts@).push(name@)),
    {
        self.parts.push(name.to_owned());
        proof {
            assert(dv(self.parts@) =~= dv(old(self).parts@).push(name@));
        }
    }

    /// Removes the last component, if any.
    pub fn pop_part(&mut self)
        ensures
            final(self).absolute == old(self).absolute,
            old(self).parts@.len() == 0 ==> dv(final(self).parts@) == dv(old(self).parts@),
            old(self).parts@.len() > 0 ==> dv(final(self).parts@) == dv(
                old(self).parts@,
            ).drop_last(),
    {
        if self.parts.len() > 0 {
            self.parts.pop();
            proof {
                assert(dv(self.parts@) =~= dv(old(self).parts@).drop_last());
            }
        }
    }

    pub fn is_empty(&self) -> (r: bool)
        ensures
            r == (self.pv().1.len() == 0),
    {
        self.parts.len() == 0
    }

    /// The last component, if any.
    pub fn file_name(&self) -> (r: Option<&String>)
        ensures
            match r {
                Option::Some(n) => self.pv().1.len() > 0 && n@ == self.pv().1.last(),
                Option::None => self.pv().1.len() == 0,
            },
    {
        let n = self.parts.len();
        if n == 0 {
            Option::None
        } else {
            Option::Some(&self.parts[n - 1])
        }
    }
}

impl Clone for FsPath {
    fn clone(&self) -> (r: Self)
        ensures
            r.pv() == self.pv(),
    {
        let mut parts: Vec<String> = Vec::new();
        let n = self.parts.len();
        let mut i: usize = 0;
        while i < n
            invariant
                n == self.parts@.len(),
                i <= n,
                parts@.len() == i,
                forall|j: int| 0 <= j < i ==> parts@[j]@ == self.parts@[j]@,
            decreases n - i,
        {
            parts.push(self.parts[i].clone());
            i += 1;
        }
        let r = FsPath { absolute: self.absolute, parts };
        proof {
            assert(dv(r.parts@) =~= dv(self.parts@));
        }
        r
    }
}

/// Equality of two paths as values.
pub fn path_eq(a: &FsPath, b: &FsPath) -> (r: bool)
    ensures
        r == (a.pv() == b.pv()),
{
    if a.absolute != b.absolute {
        return false;
    }
    let n = a.parts.len();
    if n != b.parts.len() {
        proof {
            assert(dv(a.parts@).len() != dv(b.parts@).len());
        }
        return false;
    }
    let mut i: usize = 0;
    while i < n
        invariant
            n == a.parts@.len(),
            n == b.parts@.len(),
            i <= n,
            a.absolute == b.absolute,
            forall|j: int| 0 <= j < i ==> dv(a.parts@)[j] == dv(b.parts@)[j],
        decreases n - i,
    {
        if !str_eq(a.parts[i].as_str(), b.parts[i].as_str()) {
            proof {
                assert(dv(a.parts@)[i as int] != dv(b.parts@)[i as int]);
            }
            return false;
        }
        i += 1;
    }
    proof {
        assert(dv(a.parts@) =~= dv(b.parts@));
    }
    true
}

/// Lexicographic order on component lists, components compared by
/// character order.
pub open spec fn sseq_le(a: Seq<Seq<char>>, b: Seq<Seq<char>>) -> bool
    decreases a.len(),
{
    if a.len() == 0 {
        true
    } else if b.len() == 0 {
        false
    } else if a[0] != b[0] {
        lex_le(a[0], b[0])
    } else {
        sseq_le(a.skip(1), b.skip(1))
    }
}

pub proof fn lemma_sseq_le_total(a: Seq<Seq<char>>, b: Seq<Seq<char>>)
    ensures
        sseq_le(a, b) || sseq_le(b, a),
    decreases a.len(),
{
    if a.len() != 0 && b.len() != 0 {
        if a[0] != b[0] {
            lemma_lex_le_total(a[0], b[0]);
            if !lex_le(a[0], b[0]) && !lex_le(b[0], a[0]) {
            } else if lex_le(a[0], b[0]) && lex_le(b[0], a[0]) {
                lemma_lex_le_antisymmetric(a[0], b[0]);
            }
        } else {
            lemma_sseq_le_total(a.skip(1), b.skip(1));
        }
    }
}

pub proof fn lemma_sseq_le_antisymmetric(a: Seq<Seq<char>>, b: Seq<Seq<char>>)
    requires
        sseq_le(a, b),
        sseq_le(b, a),
    ensures
        a == b,
    decreases a.len(),
{
    if a.len() == 0 {
        assert(b.len() == 0);
        assert(a =~= b);
    } else {
        if a[0] != b[0] {
            lemma_lex_le_antisymmetric(a[0], b[0]);
        } else {
            lemma_sseq_le_antisymmetric(a.skip(1), b.skip(1));
            assert(a =~= seq![a[0]] + a.skip(1));
            assert(b =~= seq![b[0]] + b.skip(1));
        }
    }
}

pub proof fn lemma_sseq_le_transitive(a: Seq<Seq<char>>, b: Seq<Seq<char>>, c: Seq<Seq<char>>)
    requires
        sseq_le(a, b),
        sseq_le(b, c),
    ensures
        sseq_le(a, c),
    decreases a.len(),
{
    if a.len() != 0 && b.len() != 0 && c.len() != 0 {
        if a[0] == b[0] && b[0] == c[0] {
            lemma_sseq_le_transitive(a.skip(1), b.skip(1), c.skip(1));
        } else if a[0] == b[0] {
            assert(lex_le(b[0], c[0]));
        } else if b[0] == c[0] {
            assert(lex_le(a[0], b[0]));
        } else {
            lemma_lex_le_transitive(a[0], b[0], c[0]);
            if a[0] == c[0] {
                lemma_lex_le_antisymmetric(a[0], b[0]);
                assert(false) by {
                    lemma_lex_le_antisymmetric(b[0], c[0]);
                }
            }
        }
    }
}

/// Total order on path values: absolute paths first, then components.
pub open spec fn path_le(a: PathV, b: PathV) -> bool {
    if a.0 != b.0 {
        a.0
    } else {
        sseq_le(a.1, b.1)
    }
}

pub proof fn lemma_path_le_total(a: PathV, b: PathV)
    ensures
        path_le(a, b) || path_le(b, a),
{
    if a.0 == b.0 {
        lemma_sseq_le_total(a.1, b.1);
    }
}

pub proof fn lemma_path_le_antisymmetric(a: PathV, b: PathV)
    requires
        path_le(a, b),
        path_le(b, a),
    ensures
        a == b,
{
    if a.0 == b.0 {
        lemma_sseq_le_antisymmetric(a.1, b.1);
        assert(a =~= b);
    }
}

pub proof fn lemma_path_le_transitive(a: PathV, b: PathV, c: PathV)
    requires
        path_le(a, b),
        path_le(b, c),
    ensures
        path_le(a, c),
{
    if a.0 == b.0 && b.0 == c.0 {
        lemma_sseq_le_transitive(a.1, b.1, c.1);
    }
}

/// Decides `path_le(a.pv(), b.pv())`.
#[verifier::loop_isolation(false)]
pub fn path_le_exec(a: &FsPath, b: &FsPath) -> (r: bool)
    ensures
        r == path_le(a.pv(), b.pv()),
{
    if a.absolute != b.absolute {
        return a.absolute;
    }
    let an = a.parts.len();
    let bn = b.parts.len();
    let mut i: usize = 0;
    proof {
        assert(dv(a.parts@).skip(0) =~= dv(a.parts@));
        assert(dv(b.parts@).skip(0) =~= dv(b.parts@));
    }
    loop
        invariant
            an == a.parts@.len(),
            bn == b.parts@.len(),
            i <= an,
            i <= bn,
            a.absolute == b.absolute,
            sseq_le(dv(a.parts@), dv(b.parts@)) == sseq_le(
                dv(a.parts@).skip(i as int),
                dv(b.parts@).skip(i as int),
            ),
        decreases an - i,
    {
        if i == an {
            assert(dv(a.parts@).skip(i as int).len() == 0);
            return true;
        }
        if i == bn {
            assert(dv(b.parts@).skip(i as int).len() == 0);
            assert(dv(a.parts@).skip(i as int).len() != 0);
            return false;
        }
        proof {
            assert(dv(a.parts@).skip(i as int)[0] == dv(a.parts@)[i as int]);
            assert(dv(b.parts@).skip(i as int)[0] == dv(b.parts@)[i as int]);
        }
        if !str_eq(a.parts[i].as_str(), b.parts[i].as_str()) {
            return str_le(a.parts[i].as_str(), b.parts[i].as_str());
        }
        proof {
            assert(dv(a.parts@).skip(i as int).skip(1) =~= dv(a.parts@).skip(i + 1));
            assert(dv(b.parts@).skip(i as int).skip(1) =~= dv(b.parts@).skip(i + 1));
        }
        i += 1;
    }
}

/// The components joined with `/` separators, from index `i` on.
pub open spec fn join_parts(parts: Seq<Seq<char>>, i: int) -> Seq<char>
    decreases parts.len() - i,
{
    if i < 0 || i >= parts.len() {
        Seq::empty()
    } else if i == parts.len() - 1 {
        parts[i]
    } else {
        parts[i] + "/"@ + join_parts(parts, i + 1)
    }
}

/// The textual form of a path value.
pub open spec fn display_of(p: PathV) -> Seq<char> {
    if p.0 {
        "/"@ + join_parts(p.1, 0)
    } else {
        join_parts(p.1, 0)
    }
}

/// Renders a path as text.
#[verifier::loop_isolation(false)]
pub fn display_path(p: &FsPath) -> (r: String)
    ensures
        r@ == display_of(p.pv()),
{
    let mut out = if p.absolute {
        "/".to_owned()
    } else {
        String::new()
    };
    let ghost base = out@;
    let n = p.parts.len();
    if n == 0 {
        proof {
            assert(base + Seq::<char>::empty() =~= base);
        }
        return out;
    }
    let mut i: usize = 0;
    while i < n
        invariant
            n == p.parts@.len(),
            n >= 1,
            i <= n,
            out@ + join_parts(dv(p.parts@), i as int) == base + join_parts(dv(p.parts@), 0) || (i
                == n && out@ == base + join_parts(dv(p.parts@), 0)),
            i < n ==> out@ + join_parts(dv(p.parts@), i as int) == base + join_parts(
                dv(p.parts@),
                0,
            ),
        decreases n - i,
    {
        out.append(p.parts[i].as_str());
        if i + 1 < n {
            out.append("/");
        }
        proof {
            assert(dv(p.parts@)[i as int] == p.parts@[i as int]@);
            if i + 1 < n {
                assert(join_parts(dv(p.parts@), i as int) == dv(p.parts@)[i as int] + "/"@
                    + join_parts(dv(p.parts@), i + 1));
                assert(out@ + join_parts(dv(p.parts@), i + 1) =~= base + join_parts(
                    dv(p.parts@),
                    0,
                ));
            } else {
                assert(join_parts(dv(p.parts@), i as int) == dv(p.parts@)[i as int]);
                assert(out@ =~= base + join_parts(dv(p.parts@), 0));
            }
        }
        i += 1;
    }
    out
}

/// Splits a string into a path: a leading `/` makes it absolute, and the
/// components are the maximal non-empty runs between `/` characters.
pub open spec fn split_slash(s: Seq<char>, i: int, cur: Seq<char>, acc: Seq<Seq<char>>) -> Seq<
    Seq<char>,
>
    decreases s.len() - i,
{
    if i < 0 || i >= s.len() {
        if cur.len() > 0 {
            acc.push(cur)
        } else {
            acc
        }
    } else if s[i] == '/' {
        if cur.len() > 0 {
            split_slash(s, i + 1, Seq::empty(), acc.push(cur))
        } else {
            split_slash(s, i + 1, Seq::empty(), acc)
        }
    } else {
        split_slash(s, i + 1, cur.push(s[i]), acc)
    }
}

/// The path value a string denotes.
pub open spec fn path_of_string(s: Seq<char>) -> PathV {
    (s.len() > 0 && s[0] == '/', split_slash(s, 0, Seq::empty(), Seq::empty()))
}

/// Parses a string into a path.
#[verifier::loop_isolation(false)]
pub fn parse_path(s: &str) -> (r: FsPath)
    ensures
        r.pv() == path_of_string(s@),
{
    let n = s.unicode_len();
    let absolute = if n > 0 {
        s.get_char(0) == '/'
    } else {
        false
    };
    let mut parts: Vec<String> = Vec::new();
    let mut cur = String::new();
    proof {
        assert(dv(parts@) =~= Seq::<Seq<char>>::empty());
    }
    let mut i: usize = 0;
    while i < n
        invariant
            n == s@.len(),
            i <= n,
            split_slash(s@, 0, Seq::empty(), Seq::empty()) == split_slash(
                s@,
                i as int,
                cur@,
                dv(parts@),
            ),
        decreases n - i,
    {
        let ghost partsv = dv(parts@);
        let ghost curv = cur@;
        let c = s.get_char(i);
        if c == '/' {
            if !cur.as_str().is_empty() {
                parts.push(cur);
                cur = String::new();
                proof {
                    assert(dv(parts@) =~= partsv.push(curv));
                }
            } else {
                proof {
                    assert(curv =~= Seq::<char>::empty());
                }
            }
            proof {
                assert(cur@ =~= Seq::<char>::empty());
            }
        } else {
            push_char(&mut cur, c);
            proof {
                assert(cur@ =~= curv.push(s@[i as int]));
            }
        }
        i += 1;
    }
    if !cur.as_str().is_empty() {
        let ghost partsv = dv(parts@);
        let ghost curv = cur@;
        parts.push(cur);
        proof {
            assert(dv(parts@) =~= partsv.push(curv));
        }
    }
    FsPath { absolute, parts }
}

} // verus!
