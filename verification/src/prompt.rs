//! Confirmation answers and prompt construction. Reading keys and
//! environment variables is the surrounding program's business; it
//! hands the values in and renders the result.

use vstd::prelude::*;
use crate::strutil::{push_char, str_eq, str_starts_with, concat2};

verus! {

/// A reply to a confirmation prompt.
#[derive(PartialEq, Eq, Structural)]
pub enum Answer {
    No,
    Yes,
    All,
    Quit,
}

/// A character the standard trim would remove: the Unicode
/// white-space set.
pub open spec fn is_blank(c: char) -> bool {
    ||| c == ' '
    ||| (9 <= c as u32 && c as u32 <= 13)
    ||| c as u32 == 0x85
    ||| c as u32 == 0xA0
    ||| c as u32 == 0x1680
    ||| (0x2000 <= c as u32 && c as u32 <= 0x200A)
    ||| c as u32 == 0x2028
    ||| c as u32 == 0x2029
    ||| c as u32 == 0x202F
    ||| c as u32 == 0x205F
    ||| c as u32 == 0x3000
}

/// Decides `is_blank`.
pub fn char_is_blank(c: char) -> (r: bool)
    ensures
        r == is_blank(c),
{
    let u = c as u32;
    u == 32 || (9 <= u && u <= 13) || u == 0x85 || u == 0xA0 || u == 0x1680 || (0x2000 <= u && u
        <= 0x200A) || u == 0x2028 || u == 0x2029 || u == 0x202F || u == 0x205F || u == 0x3000
}

/// The answer an input line denotes: decided by its first character
/// after leading white space, case-insensitively; `all` and `quit`
/// count only when many items are at stake; anything else declines.
pub open spec fn answer_spec(input: Seq<char>, many: bool) -> Answer
    decreases input.len(),
{
    if input.len() == 0 {
        Answer::No
    } else if is_blank(input[0]) {
        answer_spec(input.skip(1), many)
    } else if input[0] == 'y' || input[0] == 'Y' {
        Answer::Yes
    } else if input[0] == 'n' || input[0] == 'N' {
        Answer::No
    } else if (input[0] == 'a' || input[0] == 'A') && many {
        Answer::All
    } else if (input[0] == 'q' || input[0] == 'Q') && many {
        Answer::Quit
    } else {
        Answer::No
    }
}

/// Parses a confirmation reply.
#[verifier::loop_isolation(false)]
pub fn process_answer(input: &str, many: bool) -> (r: Answer)
    ensures
        r == answer_spec(input@, many),
{
    let n = input.unicode_len();
    let mut i: usize = 0;
    proof {
        assert(input@.skip(0) =~= input@);
    }
    loop
        invariant
            n == input@.len(),
            i <= n,
            answer_spec(input@, many) == answer_spec(input@.skip(i as int), many),
        decreases n - i,
    {
        if i == n {
            return Answer::No;
        }
        let c = input.get_char(i);
        proof {
            assert(input@.skip(i as int)[0] == input@[i as int]);
        }
        if char_is_blank(c) {
            proof {
                assert(input@.skip(i as int).skip(1) =~= input@.skip(i + 1));
            }
            i += 1;
        } else if c == 'y' || c == 'Y' {
            return Answer::Yes;
        } else if c == 'n' || c == 'N' {
            return Answer::No;
        } else if (c == 'a' || c == 'A') && many {
            return Answer::All;
        } else if (c == 'q' || c == 'Q') && many {
            return Answer::Quit;
        } else {
            return Answer::No;
        }
    }
}

/// Builds shell prompts from a specification string: `\\u` is the user
/// name, `\\h` the host name, `\\w` the working directory (with the
/// home-directory prefix shown as `~`), and `\\$` a `#` for elevated
/// users and `$` otherwise.
pub struct PromptBuilder {
    pub username: String,
    pub hostname: String,
    pub workdir: String,
    pub prompt: String,
    pub elevated: bool,
}

/// The working directory as shown: the home prefix becomes `~`.
pub open spec fn home_shown(workdir: Seq<char>, home: Seq<char>) -> Seq<char> {
    if home.len() <= workdir.len() && workdir.subrange(0, home.len() as int) == home {
        seq!['~'] + workdir.skip(home.len() as int)
    } else {
        workdir
    }
}

/// What one prompt specification renders to.
pub open spec fn build_spec(
    spec: Seq<char>,
    user: Seq<char>,
    host: Seq<char>,
    work: Seq<char>,
    root: bool,
    acc: Seq<char>,
) -> Seq<char>
    decreases spec.len(),
{
    if spec.len() == 0 {
        acc
    } else if spec[0] == '\\' {
        if spec.len() == 1 {
            acc
        } else if spec[1] == 'u' {
            build_spec(spec.skip(2), user, host, work, root, acc + user)
        } else if spec[1] == 'h' {
            build_spec(spec.skip(2), user, host, work, root, acc + host)
        } else if spec[1] == 'w' {
            build_spec(spec.skip(2), user, host, work, root, acc + work)
        } else if spec[1] == '$' {
            build_spec(
                spec.skip(2),
                user,
                host,
                work,
                root,
                acc.push(
                    if root {
                        '#'
                    } else {
                        '$'
                    },
                ),
            )
        } else {
            build_spec(spec.skip(2), user, host, work, root, acc.push(spec[1]))
        }
    } else {
        build_spec(spec.skip(1), user, host, work, root, acc.push(spec[0]))
    }
}

/// The working directory as the prompt shows it: the home-directory
/// prefix collapses to `~`.
pub fn shown_workdir(home: &str, workdir: &str) -> (r: String)
    ensures
        r@ == home_shown(workdir@, home@),
{
    if str_starts_with(workdir, home) {
        let n = workdir.unicode_len();
        let hlen = home.unicode_len();
        let rest = workdir.substring_char(hlen, n);
        let shown = concat2("~", rest);
        proof {
            reveal_strlit("~");
            assert("~"@ =~= seq!['~']);
            assert(rest@ =~= workdir@.skip(home@.len() as int));
        }
        shown
    } else {
        workdir.to_owned()
    }
}

impl PromptBuilder {
    /// A builder over plain environment values; the `with_scope` name
    /// is kept from the variant that pulled them from the shell scope.
    pub fn with_scope(username: String, hostname: String, workdir: String, elevated: bool) -> (r:
        Self)
        ensures
            r.username == username,
            r.hostname == hostname,
            r.workdir == workdir,
            r.elevated == elevated,
            r.prompt@ == Seq::<char>::empty(),
    {
        PromptBuilder { username, hostname, workdir, prompt: String::new(), elevated }
    }

    pub fn new() -> (r: Self)
        ensures
            r.username@ == Seq::<char>::empty(),
            r.hostname@ == Seq::<char>::empty(),
            r.workdir@ == Seq::<char>::empty(),
            r.elevated == false,
    {
        Self::with_scope(String::new(), String::new(), String::new(), false)
    }

    /// Elevated, or logged in as the superuser.
    pub fn is_root(&self) -> (r: bool)
        ensures
            r == (self.elevated || self.username@ == "root"@),
    {
        self.elevated || str_eq(self.username.as_str(), "root")
    }

    /// Renders the default prompt specification.
    pub fn prompt(&mut self) -> (r: String)
        ensures
            r@ == build_spec(
                "\\u@\\h|\\w\\$ "@,
                old(self).username@,
                old(self).hostname@,
                old(self).workdir@,
                old(self).elevated || old(self).username@ == "root"@,
                Seq::empty(),
            ),
            final(self).username == old(self).username,
            final(self).hostname == old(self).hostname,
            final(self).workdir == old(self).workdir,
            final(self).elevated == old(self).elevated,
    {
        let spec = "\\u@\\h|\\w\\$ ".to_owned();
        self.build(spec.as_str())
    }

    /// Renders a prompt specification.
    #[verifier::loop_isolation(false)]
    pub fn build(&mut self, spec: &str) -> (r: String)
        ensures
            r@ == build_spec(
                spec@,
                old(self).username@,
                old(self).hostname@,
                old(self).workdir@,
                old(self).elevated || old(self).username@ == "root"@,
                Seq::empty(),
            ),
            final(self).username == old(self).username,
            final(self).hostname == old(self).hostname,
            final(self).workdir == old(self).workdir,
            final(self).elevated == old(self).elevated,
    {
        let root = self.is_root();
        let n = spec.unicode_len();
        let mut out = String::new();
        let mut i: usize = 0;
        proof {
            assert(spec@.skip(0) =~= spec@);
            assert(out@ =~= Seq::<char>::empty());
        }
        while i < n
            invariant
                n == spec@.len(),
                i <= n,
                root == (self.elevated || self.username@ == "root"@),
                self == old(self),
                build_spec(
                    spec@,
                    self.username@,
                    self.hostname@,
                    self.workdir@,
                    root,
                    Seq::empty(),
                ) == build_spec(
                    spec@.skip(i as int),
                    self.username@,
                    self.hostname@,
                    self.workdir@,
                    root,
                    out@,
                ),
            decreases n - i,
        {
            let ghost outprev = out@;
            let c = spec.get_char(i);
            proof {
                assert(spec@.skip(i as int)[0] == spec@[i as int]);
            }
            if c == '\\' {
                if i + 1 < n {
                    let c2 = spec.get_char(i + 1);
                    proof {
                        assert(spec@.skip(i as int)[1] == spec@[i + 1]);
                        assert(spec@.skip(i as int).skip(2) =~= spec@.skip(i + 2));
                    }
                    if c2 == 'u' {
                        out.append(self.username.as_str());
                    } else if c2 == 'h' {
                        out.append(self.hostname.as_str());
                    } else if c2 == 'w' {
                        out.append(self.workdir.as_str());
                    } else if c2 == '$' {
                        if root {
                            push_char(&mut out, '#');
                            proof {
                                assert(out@ =~= outprev.push('#'));
                            }
                        } else {
                            push_char(&mut out, '$');
                            proof {
                                assert(out@ =~= outprev.push('$'));
                            }
                        }
                    } else {
                        push_char(&mut out, c2);
                        proof {
                            assert(out@ =~= outprev.push(c2));
                        }
                    }
                    i += 2;
                } else {
                    proof {
                        assert(spec@.skip(i as int).len() == 1);
                        assert(spec@.skip(i + 1).len() == 0);
                    }
                    i += 1;
                }
            } else {
                push_char(&mut out, c);
                proof {
                    assert(out@ =~= outprev.push(c));
                    assert(spec@.skip(i as int).skip(1) =~= spec@.skip(i + 1));
                }
                i += 1;
            }
        }
        proof {
            assert(spec@.skip(n as int).len() == 0);
        }
        out
    }
}

} // verus!
