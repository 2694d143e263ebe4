use vstd::prelude::*;
use vstd::string::StringExecFns;

verus! {

/// `c` is a path separator on some platform: `/`, or `\` on Windows.
pub open spec fn is_sep(c: char) -> bool {
    c == '/' || c == '\\'
}

/// `b` is not a bare Windows drive such as `C:` (to which `Path::join` adds
/// no separator), does not start with a verbatim, device or UNC prefix (those
/// start with two separators), and does not end with `\`, a separator on
/// Windows only. A drive path such as `C:\work` is plain. For such a base,
/// `Path::join` appends in the same way on every platform.
pub open spec fn plain_base(b: Seq<char>) -> bool {
    &&& !(b.len() >= 2 && is_sep(b[0]) && is_sep(b[1]))
    &&& !(b.len() == 2 && b[1] == ':')
    &&& !(b.len() > 0 && b.last() == '\\')
}

/// `c` is one plain path component: not empty, not `.` or `..`, and with no
/// `/`, `\` or `:` (so neither absolute nor prefixed on any platform).
pub open spec fn plain_component(c: Seq<char>) -> bool {
    &&& c.len() >= 1
    &&& !(c.len() == 1 && c[0] == '.')
    &&& !(c.len() == 2 && c[0] == '.' && c[1] == '.')
    &&& forall|i: int| 0 <= i < c.len() ==> #[trigger] c[i] != '/' && c[i] != '\\' && c[i] != ':'
}

/// `c` appended to `b` as a path: nothing between them when `b` is empty or
/// ends with `/`, otherwise the separator `sep`.
pub open spec fn join_text(b: Seq<char>, sep: char, c: Seq<char>) -> Seq<char> {
    if b.len() == 0 {
        c
    } else if b.last() == '/' {
        b + c
    } else {
        b + seq![sep] + c
    }
}

/// `std::path::Path::join` of `child` onto `base`, as text. For a plain
/// component `child` the result ends with `child`: std pushes the component
/// last, after at most one separator, even for a Windows verbatim base,
/// whose other components it normalises. For a [`plain_base`] as well, the
/// result is [`join_text`] of the two, with the separator `/` on Unix and `\`
/// on Windows (which of the two is not stated). For other children (empty,
/// `.`, `..`, several components, absolute or prefixed ones, which std may
/// drop, replace the base with, or normalise) nothing is stated.
#[verifier::external_body]
pub(crate) fn join_path(base: &str, child: &str) -> (res: String)
    ensures
        plain_component(child@) ==> {
            &&& res@.len() >= child@.len()
            &&& res@.subrange(res@.len() - child@.len(), res@.len() as int) == child@
        },
        plain_base(base@) && plain_component(child@) ==> {
            &&& res@ == join_text(base@, res@[base@.len() as int], child@)
            &&& base@.len() > 0 && base@.last() != '/' ==> is_sep(res@[base@.len() as int])
        },
{
    std::path::Path::new(base).join(child).to_string_lossy().into_owned()
}

/// Joining a plain component onto a plain base gives a plain base again.
pub proof fn lemma_join_plain(b: Seq<char>, sep: char, c: Seq<char>)
    requires
        plain_base(b),
        plain_component(c),
        b.len() > 0 && b.last() != '/' ==> is_sep(sep),
    ensures
        plain_base(join_text(b, sep, c)),
        join_text(b, sep, c).len() > 0,
        join_text(b, sep, c).last() == c.last(),
        join_text(b, sep, c).last() != '/',
{
    let r = join_text(b, sep, c);
    assert(c[c.len() - 1] != '/' && c[c.len() - 1] != '\\');
    assert(c[0] != '/' && c[0] != '\\' && c[0] != ':');
    if c.len() >= 2 {
        assert(c[1] != ':');
    }
    if b.len() == 0 {
        assert(r == c);
    } else if b.last() == '/' {
        assert(r[0] == b[0]);
        assert(r[r.len() - 1] == c[c.len() - 1]);
        if b.len() >= 2 {
            assert(r[1] == b[1]);
        } else {
            assert(r[1] == c[0]);
        }
    } else {
        assert(r[0] == b[0]);
        assert(r[r.len() - 1] == c[c.len() - 1]);
        if b.len() >= 2 {
            assert(r[1] == b[1]);
        } else {
            assert(r[1] == sep);
            assert(b[0] == b.last());
        }
    }
}

/// Directory for cached downloads: `.cache` under the home directory `home`
/// when one is known, else the current directory `.`.
pub fn dirs_cache(home: Option<&str>) -> (dir: String)
    ensures
        home is None ==> dir@ == "."@,
        home matches Some(h) ==> {
            &&& dir@.len() >= 6
            &&& dir@.subrange(dir@.len() - 6, dir@.len() as int) == ".cache"@
            &&& plain_base(h@) && h@.len() == 0 ==> dir@ == ".cache"@
            &&& plain_base(h@) && h@.len() > 0 && h@.last() == '/' ==> dir@ == h@ + ".cache"@
            &&& plain_base(h@) && h@.len() > 0 && h@.last() != '/' ==> {
                &&& dir@.len() == h@.len() + 7
                &&& is_sep(dir@[h@.len() as int])
                &&& dir@ == h@ + seq![dir@[h@.len() as int]] + ".cache"@
            }
        },
{
    match home {
        Some(h) => {
            let child = ".cache";
            proof {
                reveal_strlit(".cache");
                assert(plain_component(child@));
            }
            let d = join_path(h, child);
            proof {
                if plain_base(h@) && h@.len() > 0 && h@.last() != '/' {
                    assert(d@ =~= h@ + seq![d@[h@.len() as int]] + ".cache"@);
                }
            }
            d
        },
        None => String::from_str("."),
    }
}

} // verus!
