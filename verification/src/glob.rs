//! Patterns in which a star stands for any run of characters.
use crate::text::chars_of;
use vstd::prelude::*;
use vstd::string::*;

verus! {

/// Whether `t` reads as the pattern `p`: a star stands for any run of characters, any other
/// character for itself.
pub open spec fn glob(p: Seq<char>, t: Seq<char>) -> bool
    decreases p.len(), t.len(),
{
    if p.len() == 0 {
        t.len() == 0
    } else if p[0] == '*' {
        glob(p.skip(1), t) || (t.len() > 0 && glob(p, t.skip(1)))
    } else {
        t.len() > 0 && p[0] == t[0] && glob(p.skip(1), t.skip(1))
    }
}

/// Whether the rest of `t` from `j` on reads as the rest of `p` from `i` on.
spec fn rest(p: Seq<char>, t: Seq<char>, i: int, j: int) -> bool {
    glob(p.skip(i), t.skip(j))
}

/// Some rest of `t` from behind `m` on reads as the rest of `p` from `i` on.
spec fn later(p: Seq<char>, t: Seq<char>, i: int, m: int) -> bool {
    exists|k: int| m < k <= t.len() && #[trigger] rest(p, t, i, k)
}

proof fn lemma_step(p: Seq<char>, t: Seq<char>, i: int, j: int)
    requires
        0 <= i < p.len(),
        0 <= j < t.len(),
        p[i] != '*',
    ensures
        rest(p, t, i, j) == (p[i] == t[j] && rest(p, t, i + 1, j + 1)),
{
    assert(p.skip(i)[0] == p[i]);
    assert(t.skip(j)[0] == t[j]);
    assert(p.skip(i).skip(1) =~= p.skip(i + 1));
    assert(t.skip(j).skip(1) =~= t.skip(j + 1));
}

/// A star takes whatever is left of it.
proof fn lemma_star(p: Seq<char>, t: Seq<char>, i: int, j: int)
    requires
        0 <= i < p.len(),
        0 <= j <= t.len(),
        p[i] == '*',
    ensures
        rest(p, t, i, j) == (rest(p, t, i + 1, j) || later(p, t, i + 1, j)),
    decreases t.len() - j,
{
    assert(p.skip(i)[0] == '*');
    assert(p.skip(i).skip(1) =~= p.skip(i + 1));
    if j < t.len() {
        assert(t.skip(j).skip(1) =~= t.skip(j + 1));
        lemma_star(p, t, i, j + 1);
        assert(rest(p, t, i, j) == (rest(p, t, i + 1, j) || rest(p, t, i, j + 1)));
        if rest(p, t, i + 1, j + 1) {
            assert(later(p, t, i + 1, j));
        }
        if later(p, t, i + 1, j + 1) {
            let k = choose|k: int| j + 1 < k <= t.len() && #[trigger] rest(p, t, i + 1, k);
            assert(later(p, t, i + 1, j));
        }
        if later(p, t, i + 1, j) {
            let k = choose|k: int| j < k <= t.len() && #[trigger] rest(p, t, i + 1, k);
            if k > j + 1 {
                assert(later(p, t, i + 1, j + 1));
            }
        }
    }
}

/// What a star matches from a later point on, it matches from here on.
proof fn lemma_star_back(p: Seq<char>, t: Seq<char>, i: int, j: int, k: int)
    requires
        0 <= i < p.len(),
        0 <= j <= k <= t.len(),
        p[i] == '*',
        rest(p, t, i, k),
    ensures
        rest(p, t, i, j),
    decreases k - j,
{
    if j < k {
        lemma_star_back(p, t, i, j + 1, k);
        assert(p.skip(i)[0] == '*');
        assert(t.skip(j).skip(1) =~= t.skip(j + 1));
    }
}

/// A run of ordinary characters is matched one by one.
proof fn lemma_run(p: Seq<char>, t: Seq<char>, i: int, n: int, k: int)
    requires
        0 <= i,
        0 <= n,
        i + n <= p.len(),
        0 <= k <= t.len(),
        forall|x: int| i <= x < i + n ==> p[x] != '*',
        rest(p, t, i, k),
    ensures
        k + n <= t.len(),
        rest(p, t, i + n, k + n),
    decreases n,
{
    if n > 0 {
        assert(p.skip(i)[0] == p[i]);
        if k == t.len() {
            assert(t.skip(k).len() == 0);
        }
        lemma_step(p, t, i, k);
        lemma_run(p, t, i + 1, n - 1, k + 1);
    }
}

/// A rest of only stars matches the empty text, and no other rest does.
proof fn lemma_only_stars(p: Seq<char>, t: Seq<char>, i: int)
    requires
        0 <= i < p.len(),
    ensures
        rest(p, t, i, t.len() as int) == (p[i] == '*' && rest(p, t, i + 1, t.len() as int)),
{
    assert(p.skip(i)[0] == p[i]);
    assert(p.skip(i).skip(1) =~= p.skip(i + 1));
    assert(t.skip(t.len() as int).len() == 0);
}

/// Whether `text` reads as `pattern`.
pub fn glob_match(pattern: &str, text: &str) -> (r: bool)
    ensures
        r == glob(pattern@, text@),
{
    let p: Vec<char> = chars_of(pattern);
    let t: Vec<char> = chars_of(text);
    let mut pi: usize = 0;
    let mut ti: usize = 0;
    let mut star: Option<usize> = None;
    let mut match_idx: usize = 0;
    proof {
        assert(p@.skip(0) =~= p@);
        assert(t@.skip(0) =~= t@);
    }
    while ti < t.len()
        invariant
            p@ == pattern@,
            t@ == text@,
            pi <= p.len(),
            ti <= t.len(),
            match_idx <= ti,
            match star {
                Some(si) => si < pi && p@[si as int] == '*' && ti - match_idx == pi - si - 1
                    && forall|x: int| si < x < pi ==> p@[x] != '*',
                None => match_idx == 0,
            },
            glob(p@, t@) == (rest(p@, t@, pi as int, ti as int) || (star matches Some(si) && later(
                p@,
                t@,
                si + 1,
                match_idx as int,
            ))),
        decreases
                t.len() - match_idx,
                p.len() - (match star {
                    Some(si) => si + 1,
                    None => 0,
                }),
                t.len() - ti,
    {
        if pi < p.len() && p[pi] == '*' {
            proof {
                lemma_star(p@, t@, pi as int, ti as int);
                if let Some(si) = star {
                    if later(p@, t@, si + 1, match_idx as int) {
                        let k = choose|k: int|
                            match_idx < k <= t@.len() && #[trigger] rest(p@, t@, si + 1, k);
                        lemma_run(p@, t@, si + 1, pi - si - 1, k);
                        lemma_star_back(p@, t@, pi as int, ti as int, k + (pi - si - 1));
                    }
                }
            }
            star = Some(pi);
            match_idx = ti;
            pi = pi + 1;
        } else if pi < p.len() && p[pi] == t[ti] {
            proof {
                lemma_step(p@, t@, pi as int, ti as int);
            }
            pi = pi + 1;
            ti = ti + 1;
        } else {
            proof {
                if pi < p.len() {
                    lemma_step(p@, t@, pi as int, ti as int);
                } else {
                    assert(p@.skip(pi as int).len() == 0);
                    assert(t@.skip(ti as int).len() > 0);
                }
            }
            match star {
                Some(si) => {
                    proof {
                        let m = match_idx as int;
                        if later(p@, t@, si + 1, m) {
                            let k = choose|k: int|
                                m < k <= t@.len() && #[trigger] rest(p@, t@, si + 1, k);
                            if k > m + 1 {
                                assert(later(p@, t@, si + 1, m + 1));
                            }
                        }
                        if later(p@, t@, si + 1, m + 1) {
                            let k = choose|k: int|
                                m + 1 < k <= t@.len() && #[trigger] rest(p@, t@, si + 1, k);
                            assert(later(p@, t@, si + 1, m));
                        }
                        if rest(p@, t@, si + 1, m + 1) {
                            assert(later(p@, t@, si + 1, m));
                        }
                    }
                    pi = si + 1;
                    match_idx = match_idx + 1;
                    ti = match_idx;
                },
                None => {
                    return false;
                },
            }
        }
    }
    proof {
        // Behind the end of the text no later start is left, but for the one that a star reached.
        if let Some(si) = star {
            if later(p@, t@, si + 1, match_idx as int) {
                let k = choose|k: int|
                    match_idx < k <= t@.len() && #[trigger] rest(p@, t@, si + 1, k);
                lemma_run(p@, t@, si + 1, pi - si - 1, k);
            }
        }
    }
    while pi < p.len() && p[pi] == '*'
        invariant
            p@ == pattern@,
            t@ == text@,
            pi <= p.len(),
            glob(p@, t@) == rest(p@, t@, pi as int, t@.len() as int),
        decreases p.len() - pi,
    {
        proof {
            lemma_only_stars(p@, t@, pi as int);
        }
        pi = pi + 1;
    }
    proof {
        if pi < p.len() {
            lemma_only_stars(p@, t@, pi as int);
        } else {
            assert(p@.skip(pi as int).len() == 0);
            assert(t@.skip(t@.len() as int).len() == 0);
        }
    }
    pi == p.len()
}

/// A lone star matches every text.
pub proof fn star_matches_all(t: Seq<char>)
    ensures
        glob(seq!['*'], t),
    decreases t.len(),
{
    let p = seq!['*'];
    reveal_with_fuel(glob, 2);
    if t.len() > 0 {
        star_matches_all(t.skip(1));
    } else {
        assert(p.skip(1).len() == 0);
    }
}

/// A pattern without a star matches itself alone.
pub proof fn plain_matches_itself(p: Seq<char>, t: Seq<char>)
    requires
        forall|i: int| 0 <= i < p.len() ==> p[i] != '*',
    ensures
        glob(p, t) == (p == t),
    decreases p.len(),
{
    if p.len() > 0 {
        if t.len() > 0 {
            assert forall|i: int| 0 <= i < p.skip(1).len() implies p.skip(1)[i] != '*' by {
                assert(p.skip(1)[i] == p[i + 1]);
            }
            plain_matches_itself(p.skip(1), t.skip(1));
            assert(p =~= seq![p[0]] + p.skip(1));
            assert(t =~= seq![t[0]] + t.skip(1));
        }
    } else {
        assert(p =~= t <==> t.len() == 0);
    }
}

} // verus!
