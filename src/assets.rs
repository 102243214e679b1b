//! Where the server finds the style sheets it compiles.
use vstd::prelude::*;

verus! {

/// The directory of the web client's style sheets, relative to the server.
pub const STYLE_DIR: &'static str = "../client-web/style/";

/// The position of the last `/` in `s`, or -1.
pub open spec fn last_slash(s: Seq<char>) -> int
    decreases s.len(),
{
    if s.len() == 0 {
        -1
    } else if s.last() == '/' {
        s.len() - 1
    } else {
        last_slash(s.drop_last())
    }
}

/// `s` without trailing separators and trailing `.` components.
pub open spec fn trim_end(s: Seq<char>) -> Seq<char>
    decreases s.len(),
{
    if s.len() > 0 && s.last() == '/' {
        trim_end(s.drop_last())
    } else if s.len() >= 2 && s.last() == '.' && s[s.len() - 2] == '/' {
        trim_end(s.drop_last())
    } else {
        s
    }
}

/// The final component of path `s`, as `Path::file_name` finds it: trailing
/// separators and `.` components do not count, and there is none when the
/// path ends in the root, `.` or `..`.
pub open spec fn file_name(s: Seq<char>) -> Option<Seq<char>> {
    let t = trim_end(s);
    let n = t.skip(last_slash(t) + 1);
    if n.len() == 0 || n == seq!['.', '.'] || n == seq!['.'] {
        None
    } else {
        Some(n)
    }
}

proof fn lemma_last_slash(s: Seq<char>)
    ensures
        -1 <= last_slash(s) < s.len(),
        last_slash(s) >= 0 ==> s[last_slash(s)] == '/',
        forall|j: int| last_slash(s) < j < s.len() ==> s[j] != '/',
    decreases s.len(),
{
    if s.len() > 0 && s.last() != '/' {
        let d = s.drop_last();
        lemma_last_slash(d);
        assert forall|j: int| last_slash(s) < j < s.len() implies s[j] != '/' by {
            if j < s.len() - 1 {
                assert(s[j] == d[j]);
            }
        }
    }
}

/// Resolves the paths the style compiler asks for.
pub struct GrassFs;

impl GrassFs {
    /// The file under `STYLE_DIR` named like the last component of `p`;
    /// `None` when `p` names no file.
    pub fn map(p: &str) -> (r: Option<String>)
        ensures
            match file_name(p@) {
                None => r is None,
                Some(n) => r is Some && r->0@ == STYLE_DIR@ + n,
            },
    {
        let full = p.unicode_len();
        let mut e: usize = full;
        assert(p@.take(full as int) =~= p@);
        while e > 0 && (p.get_char(e - 1) == '/' || (e >= 2 && p.get_char(e - 1) == '.'
            && p.get_char(e - 2) == '/'))
            invariant
                e <= full == p@.len(),
                trim_end(p@.take(e as int)) == trim_end(p@),
            decreases e,
        {
            proof {
                let t = p@.take(e as int);
                assert(t.drop_last() =~= p@.take(e - 1));
                assert(t.last() == p@[e - 1]);
                if e >= 2 {
                    assert(t[t.len() - 2] == p@[e - 2]);
                }
            }
            e = e - 1;
        }
        proof {
            let t = p@.take(e as int);
            if e > 0 {
                assert(t.last() == p@[e - 1]);
                if e >= 2 {
                    assert(t[t.len() - 2] == p@[e - 2]);
                }
            }
            assert(trim_end(t) == t);
        }
        let ghost whole = p@;
        let p = p.substring_char(0, e);
        assert(p@ =~= whole.take(e as int));
        assert(p@ == trim_end(whole));
        let len = p.unicode_len();
        let mut i: usize = len;
        let mut found = false;
        while i > 0 && !found
            invariant
                i <= len == p@.len(),
                forall|j: int| i <= j < len ==> p@[j] != '/',
                found ==> i > 0 && p@[i - 1] == '/',
            decreases i + if found {
                0int
            } else {
                1int
            },
        {
            if p.get_char(i - 1) == '/' {
                found = true;
            } else {
                i = i - 1;
            }
        }
        proof {
            lemma_last_slash(p@);
            if i > 0 {
                assert(p@[i - 1] == '/');
                assert(last_slash(p@) == i - 1) by {
                    if last_slash(p@) < i - 1 {
                        assert(p@[i - 1] != '/');
                    }
                }
            } else {
                assert(last_slash(p@) == -1) by {
                    if last_slash(p@) >= 0 {
                        assert(p@[last_slash(p@)] != '/');
                    }
                }
            }
        }
        let name = p.substring_char(i, len);
        assert(name@ =~= p@.skip(i as int));
        let n = name.unicode_len();
        if n == 0 {
            return None;
        }
        if n == 2 && name.get_char(0) == '.' && name.get_char(1) == '.' {
            assert(name@ =~= seq!['.', '.']);
            return None;
        }
        if n == 1 && name.get_char(0) == '.' {
            assert(name@ =~= seq!['.']);
            return None;
        }
        assert(name@ != seq!['.', '.']) by {
            if name@ == seq!['.', '.'] {
                assert(name@[0] == '.' && name@[1] == '.');
            }
        }
        assert(name@ != seq!['.']) by {
            if name@ == seq!['.'] {
                assert(name@[0] == '.');
            }
        }
        let mut r = String::from_str(STYLE_DIR);
        r.append(name);
        Some(r)
    }
}

} // verus!
