//! Placeholder resolution for a committed candidate's payload: a pure
//! string substitution, performed once at commit time, outside the engine.
//!
//! A payload may hold `$home` or `~` as a stand-in for the user's home
//! directory; the caller passes the home value in explicitly.

use vstd::prelude::*;
use vstd::string::StrSliceExecFns;
use vstd::string::StringExecFns;

verus! {

broadcast use vstd::string::group_string_axioms;

/// Every non-overlapping occurrence of `pat` in `s`, scanned left to right,
/// replaced by `rep`.
pub open spec fn replace_all_spec(s: Seq<char>, pat: Seq<char>, rep: Seq<char>) -> Seq<char>
    recommends
        pat.len() > 0,
    decreases s.len(),
{
    if s.len() == 0 {
        Seq::empty()
    } else if 0 < pat.len() <= s.len() && s.subrange(0, pat.len() as int) == pat {
        rep + replace_all_spec(s.skip(pat.len() as int), pat, rep)
    } else {
        seq![s[0]] + replace_all_spec(s.drop_first(), pat, rep)
    }
}

/// The home-directory placeholder spelled out.
pub open spec fn home_token() -> Seq<char> {
    seq!['$', 'h', 'o', 'm', 'e']
}

/// The short home-directory placeholder.
pub open spec fn tilde_token() -> Seq<char> {
    seq!['~']
}

/// First every `$home`, then every `~` of the intermediate result, replaced
/// by the home value.
pub open spec fn expand_path_spec(path: Seq<char>, home: Seq<char>) -> Seq<char> {
    replace_all_spec(replace_all_spec(path, home_token(), home), tilde_token(), home)
}

fn matches_at(s: &str, n: usize, pat: &str, pn: usize, i: usize) -> (r: bool)
    requires
        n == s@.len(),
        pn == pat@.len(),
        i + pn <= n,
    ensures
        r == (s@.subrange(i as int, i + pn) == pat@),
{
    let mut j: usize = 0;
    let mut ok = true;
    while j < pn && ok
        invariant
            j <= pn,
            i + pn <= n,
            n == s@.len(),
            pn == pat@.len(),
            ok ==> forall|t: int| 0 <= t < j ==> s@[i + t] == pat@[t],
            !ok ==> s@.subrange(i as int, i + pn) != pat@,
        decreases pn - j + (if ok { 1int } else { 0int }),
    {
        if s.get_char(i + j) == pat.get_char(j) {
            j += 1;
        } else {
            proof {
                assert(s@.subrange(i as int, i + pn)[j as int] == s@[i + j]);
            }
            ok = false;
        }
    }
    if ok {
        proof {
            assert(s@.subrange(i as int, i + pn) =~= pat@);
        }
    }
    ok
}

/// Replace every non-overlapping occurrence of `pat` in `s` with `rep`,
/// scanning left to right.
pub fn replace_all(s: &str, pat: &str, rep: &str) -> (r: String)
    requires
        pat@.len() > 0,
    ensures
        r@ == replace_all_spec(s@, pat@, rep@),
{
    let n = s.unicode_len();
    let pn = pat.unicode_len();
    let mut out = String::new();
    let mut i: usize = 0;
    proof {
        assert(s@.skip(0) =~= s@);
        assert(Seq::<char>::empty() + replace_all_spec(s@, pat@, rep@) =~= replace_all_spec(
            s@,
            pat@,
            rep@,
        ));
    }
    while i < n
        invariant
            i <= n,
            n == s@.len(),
            pn == pat@.len(),
            pn > 0,
            replace_all_spec(s@, pat@, rep@) == out@ + replace_all_spec(
                s@.skip(i as int),
                pat@,
                rep@,
            ),
        decreases n - i,
    {
        let ghost suffix = s@.skip(i as int);
        let ghost out0 = out@;
        proof {
            assert(suffix.len() == n - i);
        }
        if pn <= n - i && matches_at(s, n, pat, pn, i) {
            out.append(rep);
            proof {
                assert(suffix.subrange(0, pn as int) =~= s@.subrange(i as int, i + pn));
                assert(suffix.skip(pn as int) =~= s@.skip(i + pn));
                assert((out0 + rep@) + replace_all_spec(s@.skip(i + pn), pat@, rep@) =~= out0 + (
                rep@ + replace_all_spec(suffix.skip(pn as int), pat@, rep@)));
            }
            i += pn;
        } else {
            let piece = s.substring_char(i, i + 1);
            out.append(piece);
            proof {
                if pn <= n - i {
                    assert(suffix.subrange(0, pn as int) =~= s@.subrange(i as int, i + pn));
                }
                assert(suffix.drop_first() =~= s@.skip(i + 1));
                assert(piece@ =~= seq![suffix[0]]);
                assert((out0 + piece@) + replace_all_spec(s@.skip(i + 1), pat@, rep@) =~= out0 + (
                seq![suffix[0]] + replace_all_spec(suffix.drop_first(), pat@, rep@)));
            }
            i += 1;
        }
    }
    proof {
        assert(s@.skip(n as int) =~= Seq::<char>::empty());
        assert(out@ + Seq::<char>::empty() =~= out@);
    }
    out
}

/// Resolve the home-directory placeholders of a payload: `$home` first, then
/// `~`, each occurrence replaced by `home`.
pub fn expand_path(path: &str, home: &str) -> (r: String)
    ensures
        r@ == expand_path_spec(path@, home@),
{
    let pat_long: &str = "$home";
    let pat_short: &str = "~";
    proof {
        reveal_strlit("$home");
        reveal_strlit("~");
        assert(pat_long@ =~= home_token());
        assert(pat_short@ =~= tilde_token());
    }
    let t = replace_all(path, pat_long, home);
    let r = replace_all(t.as_str(), pat_short, home);
    r
}

} // verus!
