//! Byte-string helpers: ASCII lowercasing, equality, host-key
//! extraction (dropping a `:port` suffix) and splitting on a separator.

use vstd::prelude::*;

verus! {

/// ASCII `:`.
pub const COLON: u8 = 58;

/// ASCII `/`.
pub const SLASH: u8 = 47;

/// ASCII `A`.
pub const ASCII_UPPER_A: u8 = 65;

/// ASCII `Z`.
pub const ASCII_UPPER_Z: u8 = 90;

/// Lowercase one ASCII byte.
pub open spec fn lower_byte(b: u8) -> u8 {
    if ASCII_UPPER_A <= b && b <= ASCII_UPPER_Z {
        (b + 32) as u8
    } else {
        b
    }
}

/// Lowercase a byte string, ASCII letters only.
pub open spec fn lower_bytes(s: Seq<u8>) -> Seq<u8> {
    s.map_values(|b: u8| lower_byte(b))
}

/// Copy a byte string.
pub fn copy_bytes(s: &Vec<u8>) -> (r: Vec<u8>)
    ensures
        r@ == s@,
{
    let mut r: Vec<u8> = Vec::new();
    let mut i: usize = 0;
    while i < s.len()
        invariant
            i <= s.len(),
            r@ == s@.take(i as int),
        decreases s.len() - i,
    {
        r.push(s[i]);
        i += 1;
        proof {
            assert(r@ =~= s@.take(i as int));
        }
    }
    proof {
        assert(s@.take(s@.len() as int) =~= s@);
    }
    r
}

/// Lowercase the ASCII letters of a byte string.
pub fn to_lowercase(s: &Vec<u8>) -> (r: Vec<u8>)
    ensures
        r@ == lower_bytes(s@),
{
    let mut r: Vec<u8> = Vec::new();
    let mut i: usize = 0;
    while i < s.len()
        invariant
            i <= s.len(),
            r@ == lower_bytes(s@.take(i as int)),
        decreases s.len() - i,
    {
        let b = s[i];
        let lb = if b >= ASCII_UPPER_A && b <= ASCII_UPPER_Z {
            b + 32
        } else {
            b
        };
        r.push(lb);
        i += 1;
        proof {
            assert(r@ =~= lower_bytes(s@.take(i as int)));
        }
    }
    proof {
        assert(lower_bytes(s@.take(s@.len() as int)) =~= lower_bytes(s@));
    }
    r
}

/// Byte-exact equality of two byte strings.
pub fn bytes_eq(a: &Vec<u8>, b: &Vec<u8>) -> (r: bool)
    ensures
        r == (a@ == b@),
{
    if a.len() != b.len() {
        return false;
    }
    let mut i: usize = 0;
    while i < a.len()
        invariant
            a@.len() == b@.len(),
            i <= a.len(),
            forall|j: int| 0 <= j < i ==> a@[j] == b@[j],
        decreases a.len() - i,
    {
        if a[i] != b[i] {
            return false;
        }
        i += 1;
    }
    proof {
        assert(a@ =~= b@);
    }
    true
}

/// Index of the last occurrence of `b` in `s`, or -1 when `b` does not
/// occur.
pub open spec fn last_pos(s: Seq<u8>, b: u8) -> int
    decreases s.len(),
{
    if s.len() == 0 {
        -1
    } else if s[s.len() - 1] == b {
        s.len() - 1
    } else {
        last_pos(s.drop_last(), b)
    }
}

/// `last_pos` is in range, lands on `b`, and nothing after it is `b`.
pub proof fn lemma_last_pos(s: Seq<u8>, b: u8)
    ensures
        -1 <= last_pos(s, b) < s.len(),
        last_pos(s, b) >= 0 ==> s[last_pos(s, b)] == b,
        forall|j: int| last_pos(s, b) < j < s.len() ==> s[j] != b,
    decreases s.len(),
{
    if s.len() == 0 {
    } else if s[s.len() - 1] == b {
    } else {
        lemma_last_pos(s.drop_last(), b);
        assert(forall|j: int| 0 <= j < s.len() - 1 ==> s[j] == s.drop_last()[j]);
    }
}

/// The routing key a `Host` header yields: everything before the last
/// `:`, or the whole string when no `:` occurs.
pub open spec fn host_key(s: Seq<u8>) -> Seq<u8> {
    if last_pos(s, COLON) >= 0 {
        s.take(last_pos(s, COLON))
    } else {
        s
    }
}

/// Extract the routing key from a `Host` header value by dropping the
/// last `:`-separated segment (the port), if any.
pub fn strip_port(host: &Vec<u8>) -> (r: Vec<u8>)
    ensures
        r@ == host_key(host@),
{
    let mut i: usize = host.len();
    while i > 0
        invariant
            i <= host.len(),
            forall|j: int| i <= j < host@.len() ==> host@[j] != COLON,
        decreases i,
    {
        if host[i - 1] == COLON {
            proof {
                lemma_last_pos(host@, COLON);
                let lp = last_pos(host@, COLON);
                assert(host@[i - 1] == COLON);
                assert(lp >= i - 1) by {
                    if lp < i - 1 {
                        assert(host@[i - 1] != COLON);
                    }
                }
                assert(lp <= i - 1) by {
                    if lp > i - 1 {
                        assert(host@[lp] != COLON);
                    }
                }
                assert(lp == i - 1);
            }
            let mut r: Vec<u8> = Vec::new();
            let mut j: usize = 0;
            while j < i - 1
                invariant
                    j <= i - 1,
                    i >= 1,
                    i <= host.len(),
                    r@ == host@.take(j as int),
                decreases i - 1 - j,
            {
                r.push(host[j]);
                j += 1;
                proof {
                    assert(r@ =~= host@.take(j as int));
                }
            }
            return r;
        }
        i -= 1;
    }
    proof {
        lemma_last_pos(host@, COLON);
        let lp = last_pos(host@, COLON);
        assert(lp == -1) by {
            if lp >= 0 {
                assert(host@[lp] != COLON);
            }
        }
    }
    copy_bytes(host)
}

/// Stripping the port is a function of the header bytes alone: equal
/// inputs always yield the same key.
pub proof fn lemma_host_key_stable(a: Seq<u8>, b: Seq<u8>)
    requires
        a == b,
    ensures
        host_key(a) == host_key(b),
{
}

/// Appending a `:`-separated port (itself free of `:`) to any host and
/// stripping it again restores the original host.
pub proof fn lemma_host_key_strips_port(h: Seq<u8>, port: Seq<u8>)
    requires
        forall|j: int| 0 <= j < port.len() ==> port[j] != COLON,
    ensures
        host_key(h + seq![COLON] + port) == h,
{
    let s = h + seq![COLON] + port;
    lemma_last_pos(s, COLON);
    let lp = last_pos(s, COLON);
    assert(s[h.len() as int] == COLON);
    assert(lp >= h.len());
    assert(lp <= h.len()) by {
        if lp > h.len() {
            assert(s[lp] == port[lp - h.len() - 1]);
            assert(s[lp] != COLON);
        }
    }
    assert(s.take(h.len() as int) =~= h);
}

/// A host with no `:` is its own key.
pub proof fn lemma_host_key_no_port(h: Seq<u8>)
    requires
        forall|j: int| 0 <= j < h.len() ==> h[j] != COLON,
    ensures
        host_key(h) == h,
{
    lemma_last_pos(h, COLON);
    let lp = last_pos(h, COLON);
    if lp >= 0 {
        assert(h[lp] != COLON);
    }
}

/// The pieces of `s` between occurrences of `sep`, in order. Splitting
/// the empty string yields one empty piece; a leading or trailing `sep`
/// yields a leading or trailing empty piece.
pub open spec fn split_at(s: Seq<u8>, sep: u8) -> Seq<Seq<u8>>
    decreases s.len(),
{
    let i = last_pos(s, sep);
    if 0 <= i && i < s.len() {
        split_at(s.take(i), sep).push(s.subrange(i + 1, s.len() as int))
    } else {
        seq![s]
    }
}

proof fn lemma_push_inj<T>(a: Seq<T>, b: Seq<T>, x: T, y: T)
    requires
        a.push(x) == b.push(y),
    ensures
        a == b,
        x == y,
{
    assert(a.push(x).len() == a.len() + 1);
    assert(b.push(y).len() == b.len() + 1);
    assert(a.len() == b.len());
    assert forall|k: int| 0 <= k < a.len() implies a[k] == b[k] by {
        assert(0 <= k < b.len());
        assert(a.push(x)[k] == a[k]);
        assert(b.push(y)[k] == b[k]);
    }
    assert(a =~= b);
    assert(x == a.push(x)[a.len() as int]);
    assert(y == b.push(y)[b.len() as int]);
}

/// Split a byte string on every occurrence of `sep`.
pub fn split_bytes(s: &Vec<u8>, sep: u8) -> (r: Vec<Vec<u8>>)
    ensures
        r.deep_view() == split_at(s@, sep),
{
    let mut out: Vec<Vec<u8>> = Vec::new();
    let mut cur: Vec<u8> = Vec::new();
    let mut j: usize = 0;
    proof {
        assert(out.deep_view().push(cur@) =~~= split_at(s@.take(0), sep));
    }
    while j < s.len()
        invariant
            j <= s.len(),
            out.deep_view().push(cur@) == split_at(s@.take(j as int), sep),
        decreases s.len() - j,
    {
        let ghost pre = s@.take(j as int);
        let ghost post = s@.take(j + 1);
        let ghost out0 = out.deep_view();
        let ghost cur0 = cur@;
        proof {
            lemma_last_pos(pre, sep);
            assert(post.drop_last() =~= pre);
        }
        if s[j] == sep {
            proof {
                assert(post[post.len() - 1] == sep);
                assert(last_pos(post, sep) == j);
                assert(post.take(j as int) =~= pre);
                assert(post.subrange(j + 1, post.len() as int) =~= Seq::<u8>::empty());
                assert(split_at(post, sep) == split_at(pre, sep).push(Seq::<u8>::empty()));
            }
            out.push(cur);
            cur = Vec::new();
            proof {
                assert(out.deep_view() =~~= out0.push(cur0));
                assert(out.deep_view().push(cur@) =~~= split_at(pre, sep).push(
                    Seq::<u8>::empty(),
                ));
            }
        } else {
            proof {
                assert(post[post.len() - 1] != sep);
                assert(last_pos(post, sep) == last_pos(pre, sep));
                let i = last_pos(pre, sep);
                if 0 <= i && i < pre.len() {
                    assert(split_at(pre, sep) == split_at(pre.take(i), sep).push(
                        pre.subrange(i + 1, pre.len() as int),
                    ));
                    lemma_push_inj(
                        out0,
                        split_at(pre.take(i), sep),
                        cur0,
                        pre.subrange(i + 1, pre.len() as int),
                    );
                    assert(post.take(i) =~= pre.take(i));
                    assert(i < post.len());
                    assert(split_at(post, sep) == split_at(post.take(i), sep).push(
                        post.subrange(i + 1, post.len() as int),
                    ));
                    assert(post.subrange(i + 1, post.len() as int) =~= pre.subrange(
                        i + 1,
                        pre.len() as int,
                    ).push(s@[j as int]));
                } else {
                    assert(i == -1);
                    assert(split_at(pre, sep) == seq![pre]);
                    assert(seq![pre] == Seq::<Seq<u8>>::empty().push(pre));
                    lemma_push_inj(out0, Seq::<Seq<u8>>::empty(), cur0, pre);
                    assert(last_pos(post, sep) == -1);
                    assert(split_at(post, sep) == seq![post]);
                }
            }
            cur.push(s[j]);
            proof {
                let i = last_pos(pre, sep);
                assert(cur@ == cur0.push(s@[j as int]));
                if 0 <= i && i < pre.len() {
                    assert(cur@ =~= post.subrange(i + 1, post.len() as int));
                    assert(out.deep_view().push(cur@) =~~= split_at(post, sep));
                } else {
                    assert(cur@ =~= post);
                    assert(out.deep_view().push(cur@) =~~= seq![post]);
                }
            }
        }
        j += 1;
    }
    proof {
        assert(s@.take(s@.len() as int) =~= s@);
    }
    let ghost out1 = out.deep_view();
    let ghost cur1 = cur@;
    out.push(cur);
    proof {
        assert(out.deep_view() =~~= out1.push(cur1));
    }
    out
}

/// Index of the first occurrence of `pat` inside `s`, or -1 when `pat`
/// does not occur.
pub open spec fn first_match(s: Seq<u8>, pat: Seq<u8>) -> int
    decreases s.len(),
{
    if s.len() < pat.len() {
        -1
    } else if s.take(pat.len() as int) == pat {
        0
    } else if s.len() == 0 {
        -1
    } else {
        let r = first_match(s.skip(1), pat);
        if r < 0 {
            -1
        } else {
            r + 1
        }
    }
}

pub proof fn lemma_first_match(s: Seq<u8>, pat: Seq<u8>)
    ensures
        first_match(s, pat) >= 0 ==> first_match(s, pat) + pat.len() <= s.len(),
        first_match(s, pat) >= 0 ==> s.subrange(
            first_match(s, pat),
            first_match(s, pat) + pat.len(),
        ) == pat,
        first_match(s, pat) == -1 ==> forall|k: int|
            0 <= k <= s.len() - pat.len() ==> #[trigger] s.subrange(k, k + pat.len()) != pat,
    decreases s.len(),
{
    if s.len() < pat.len() {
    } else if s.take(pat.len() as int) == pat {
        assert(s.subrange(0, pat.len() as int) == s.take(pat.len() as int));
    } else if s.len() == 0 {
    } else {
        lemma_first_match(s.skip(1), pat);
        let r = first_match(s.skip(1), pat);
        if r >= 0 {
            assert(s.subrange(r + 1, r + 1 + pat.len()) =~= s.skip(1).subrange(
                r,
                r + pat.len(),
            ));
        } else {
            assert forall|k: int| 0 <= k <= s.len() - pat.len() implies #[trigger] s.subrange(
                k,
                k + pat.len(),
            ) != pat by {
                if k == 0 {
                    assert(s.subrange(0, pat.len() as int) =~= s.take(pat.len() as int));
                } else {
                    assert(s.subrange(k, k + pat.len()) =~= s.skip(1).subrange(
                        k - 1,
                        k - 1 + pat.len(),
                    ));
                }
            }
        }
    }
}

/// `s` with every (leftmost, non-overlapping) occurrence of `pat`
/// replaced by `rep`. An empty `pat` leaves `s` unchanged.
pub open spec fn replace_all(s: Seq<u8>, pat: Seq<u8>, rep: Seq<u8>) -> Seq<u8>
    decreases s.len(),
{
    if pat.len() == 0 {
        s
    } else {
        let i = first_match(s, pat);
        if 0 <= i && i + pat.len() <= s.len() {
            s.take(i) + rep + replace_all(s.skip(i + pat.len()), pat, rep)
        } else {
            s
        }
    }
}

proof fn lemma_replace_step_no_match(t: Seq<u8>, pat: Seq<u8>, rep: Seq<u8>)
    requires
        pat.len() > 0,
        t.len() > 0,
        t.len() < pat.len() || t.take(pat.len() as int) != pat,
    ensures
        replace_all(t, pat, rep) == seq![t[0]] + replace_all(t.skip(1), pat, rep),
{
    if t.len() < pat.len() {
        assert(first_match(t, pat) == -1);
        assert(t.skip(1).len() < pat.len());
        assert(first_match(t.skip(1), pat) == -1);
        assert(replace_all(t, pat, rep) == t);
        assert(replace_all(t.skip(1), pat, rep) == t.skip(1));
        assert(t =~= seq![t[0]] + t.skip(1));
    } else {
        let r = first_match(t.skip(1), pat);
        lemma_first_match(t.skip(1), pat);
        if r < 0 {
            assert(first_match(t, pat) == -1);
            assert(replace_all(t, pat, rep) == t);
            assert(replace_all(t.skip(1), pat, rep) == t.skip(1));
            assert(t =~= seq![t[0]] + t.skip(1));
        } else {
            let i = r + 1;
            assert(first_match(t, pat) == i);
            assert(r + pat.len() <= t.skip(1).len());
            assert(0 <= i && i + pat.len() <= t.len());
            assert(replace_all(t, pat, rep) == t.take(i) + rep + replace_all(
                t.skip(i + pat.len()),
                pat,
                rep,
            ));
            assert(replace_all(t.skip(1), pat, rep) == t.skip(1).take(r) + rep + replace_all(
                t.skip(1).skip(r + pat.len()),
                pat,
                rep,
            ));
            assert(t.take(i) =~= seq![t[0]] + t.skip(1).take(r));
            assert(t.skip(1).skip(r + pat.len()) =~= t.skip(i + pat.len()));
            assert(seq![t[0]] + (t.skip(1).take(r) + rep + replace_all(
                t.skip(i + pat.len()),
                pat,
                rep,
            )) =~= (seq![t[0]] + t.skip(1).take(r)) + rep + replace_all(
                t.skip(i + pat.len()),
                pat,
                rep,
            ));
        }
    }
}

/// Does `pat` occur in `s` starting at `i`?
fn matches_at(s: &Vec<u8>, i: usize, pat: &Vec<u8>) -> (r: bool)
    requires
        i + pat@.len() <= s@.len(),
    ensures
        r == (s@.subrange(i as int, i as int + pat@.len()) == pat@),
{
    let n = s.len();
    let mut k: usize = 0;
    while k < pat.len()
        invariant
            i + pat@.len() <= s@.len(),
            n == s@.len(),
            k <= pat.len(),
            forall|j: int| 0 <= j < k ==> s@[i + j] == pat@[j],
        decreases pat.len() - k,
    {
        if s[i + k] != pat[k] {
            proof {
                assert(s@.subrange(i as int, i as int + pat@.len())[k as int] == s@[i + k]);
            }
            return false;
        }
        k += 1;
    }
    proof {
        assert(s@.subrange(i as int, i as int + pat@.len()) =~= pat@);
    }
    true
}

/// Append all of `more` to `out`.
fn push_all(out: &mut Vec<u8>, more: &Vec<u8>)
    ensures
        final(out)@ == old(out)@ + more@,
{
    let mut k: usize = 0;
    while k < more.len()
        invariant
            k <= more.len(),
            out@ == old(out)@ + more@.take(k as int),
        decreases more.len() - k,
    {
        out.push(more[k]);
        k += 1;
        proof {
            assert(old(out)@ + more@.take(k as int) =~= (old(out)@ + more@.take(
                k - 1,
            )).push(more@[k - 1]));
        }
    }
    proof {
        assert(more@.take(more@.len() as int) =~= more@);
    }
}

/// Replace every occurrence of `pat` in `s` by `rep`, scanning left to
/// right without overlap.
pub fn replace(s: &Vec<u8>, pat: &Vec<u8>, rep: &Vec<u8>) -> (r: Vec<u8>)
    ensures
        r@ == replace_all(s@, pat@, rep@),
{
    if pat.len() == 0 {
        return copy_bytes(s);
    }
    let mut out: Vec<u8> = Vec::new();
    let mut i: usize = 0;
    proof {
        assert(s@.skip(0) =~= s@);
        assert(out@ + replace_all(s@, pat@, rep@) =~= replace_all(s@, pat@, rep@));
    }
    while i < s.len()
        invariant
            pat@.len() > 0,
            i <= s.len(),
            replace_all(s@, pat@, rep@) == out@ + replace_all(s@.skip(i as int), pat@, rep@),
        decreases s.len() - i,
    {
        let ghost t = s@.skip(i as int);
        if pat.len() <= s.len() - i && matches_at(s, i, pat) {
            proof {
                assert(t.take(pat@.len() as int) =~= s@.subrange(
                    i as int,
                    i as int + pat@.len(),
                ));
                assert(first_match(t, pat@) == 0);
                assert(0 + pat@.len() <= t.len());
                assert(replace_all(t, pat@, rep@) == t.take(0) + rep@ + replace_all(
                    t.skip(pat@.len() as int),
                    pat@,
                    rep@,
                ));
                assert(t.take(0) + rep@ + replace_all(t.skip(pat@.len() as int), pat@, rep@)
                    =~= rep@ + replace_all(t.skip(pat@.len() as int), pat@, rep@));
            }
            push_all(&mut out, rep);
            i += pat.len();
            proof {
                assert(t.skip(pat@.len() as int) =~= s@.skip(i as int));
            }
        } else {
            proof {
                if i + pat@.len() <= s@.len() {
                    assert(t.take(pat@.len() as int) =~= s@.subrange(
                        i as int,
                        i as int + pat@.len(),
                    ));
                    assert(t.take(pat@.len() as int) != pat@);
                } else {
                    assert(t.len() < pat@.len());
                }
                lemma_replace_step_no_match(t, pat@, rep@);
            }
            out.push(s[i]);
            i += 1;
            proof {
                assert(t.skip(1) =~= s@.skip(i as int));
                assert(out@ + replace_all(s@.skip(i as int), pat@, rep@) =~= (out@.drop_last()
                    + (seq![t[0]] + replace_all(t.skip(1), pat@, rep@))));
                assert(out@.drop_last() =~= out@.subrange(0, out@.len() - 1));
            }
        }
    }
    proof {
        let t = s@.skip(i as int);
        assert(t.len() == 0);
        assert(first_match(t, pat@) == -1);
        assert(replace_all(t, pat@, rep@) == t);
        assert(out@ + t =~= out@);
    }
    out
}

} // verus!
