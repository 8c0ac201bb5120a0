//! Verified text utilities: character access, concatenation, decimal
//! rendering, `$var` substitution and substring replacement.

use vstd::prelude::*;

verus! {

/// Relies on `String::push`: appends exactly one character at the end.
pub assume_specification[ String::push ](s: &mut String, c: char)
    ensures
        final(s)@ == old(s)@.push(c),
;

/// The characters of a string, as a vector.
pub fn chars_of(s: &str) -> (r: Vec<char>)
    ensures
        r@ == s@,
{
    let n: usize = s.unicode_len();
    let mut r: Vec<char> = Vec::new();
    let mut i: usize = 0;
    while i < n
        invariant
            i <= n,
            n == s@.len(),
            r@ == s@.take(i as int),
        decreases n - i,
    {
        r.push(s.get_char(i));
        i = i + 1;
        assert(r@ =~= s@.take(i as int));
    }
    assert(r@ =~= s@);
    r
}

/// A string holding exactly the given characters.
pub fn string_of(v: &Vec<char>) -> (r: String)
    ensures
        r@ == v@,
{
    let mut r = String::new();
    let mut i: usize = 0;
    while i < v.len()
        invariant
            i <= v@.len(),
            r@ == v@.take(i as int),
        decreases v@.len() - i,
    {
        r.push(v[i]);
        i = i + 1;
        assert(r@ =~= v@.take(i as int));
    }
    assert(r@ =~= v@);
    r
}

/// Whether two strings hold the same characters.
pub fn str_eq(a: &str, b: &str) -> (r: bool)
    ensures
        r == (a@ == b@),
{
    let va = chars_of(a);
    let vb = chars_of(b);
    chars_eq(&va, &vb)
}

/// Whether two character ranges hold the same characters.
pub fn chars_eq_at(v: &Vec<char>, from: usize, w: &Vec<char>) -> (r: bool)
    requires
        from + w@.len() <= v@.len(),
    ensures
        r == (v@.subrange(from as int, from + w@.len()) == w@),
{
    let n: usize = v.len();
    assert(n == v@.len() && v@.len() <= usize::MAX);
    let mut k: usize = 0;
    while k < w.len()
        invariant
            k <= w@.len(),
            from + w@.len() <= v@.len(),
            v@.len() <= usize::MAX,
            forall|j: int| 0 <= j < k ==> v@[from + j] == w@[j],
        decreases w@.len() - k,
    {
        if v[from + k] != w[k] {
            assert(v@.subrange(from as int, from + w@.len())[k as int] != w@[k as int]);
            return false;
        }
        k = k + 1;
    }
    assert(v@.subrange(from as int, from + w@.len()) =~= w@);
    true
}

/// Whether the whole vectors hold the same characters.
pub fn chars_eq(v: &Vec<char>, w: &Vec<char>) -> (r: bool)
    ensures
        r == (v@ == w@),
{
    if v.len() != w.len() {
        return false;
    }
    let r = chars_eq_at(v, 0, w);
    assert(v@.subrange(0, v@.len() as int) =~= v@);
    r
}

/// `s` with every `'-'` replaced by `'_'`.
pub open spec fn dash_to_underscore_spec(s: Seq<char>) -> Seq<char> {
    Seq::new(s.len(), |i: int| if s[i] == '-' { '_' } else { s[i] })
}

/// Replace every `'-'` with `'_'`.
pub fn dash_to_underscore(s: &str) -> (r: String)
    ensures
        r@ == dash_to_underscore_spec(s@),
{
    let v = chars_of(s);
    let mut out: Vec<char> = Vec::new();
    let mut i: usize = 0;
    while i < v.len()
        invariant
            i <= v@.len(),
            v@ == s@,
            out@ == dash_to_underscore_spec(s@).take(i as int),
        decreases v@.len() - i,
    {
        if v[i] == '-' {
            out.push('_');
        } else {
            out.push(v[i]);
        }
        i = i + 1;
        assert(out@ =~= dash_to_underscore_spec(s@).take(i as int));
    }
    assert(out@ =~= dash_to_underscore_spec(s@));
    string_of(&out)
}

/// Whether `s` holds any `'-'`.
pub fn has_dash(s: &str) -> (r: bool)
    ensures
        r == s@.contains('-'),
{
    let v = chars_of(s);
    let mut i: usize = 0;
    while i < v.len()
        invariant
            i <= v@.len(),
            v@ == s@,
            forall|j: int| 0 <= j < i ==> s@[j] != '-',
        decreases v@.len() - i,
    {
        if v[i] == '-' {
            assert(s@[i as int] == '-');
            return true;
        }
        i = i + 1;
    }
    assert(!s@.contains('-'));
    false
}

/// Pushes all characters of `w` onto `out`.
pub fn push_all(out: &mut Vec<char>, w: &Vec<char>)
    ensures
        final(out)@ == old(out)@ + w@,
{
    let mut k: usize = 0;
    while k < w.len()
        invariant
            k <= w@.len(),
            out@ == old(out)@ + w@.take(k as int),
        decreases w@.len() - k,
    {
        out.push(w[k]);
        k = k + 1;
        assert(out@ =~= old(out)@ + w@.take(k as int));
    }
    assert(out@ =~= old(out)@ + w@);
}

/// The first position at or after `i` that ends a run of non-dot characters:
/// the position of the next `'.'`, or the length of `s`.
pub open spec fn run_end(s: Seq<char>, i: int) -> int
    decreases s.len() - i,
{
    if i < 0 || i >= s.len() || s[i] == '.' {
        i
    } else {
        run_end(s, i + 1)
    }
}

pub proof fn lemma_run_end_bounds(s: Seq<char>, i: int)
    requires
        0 <= i <= s.len(),
    ensures
        i <= run_end(s, i) <= s.len(),
        forall|k: int| i <= k < run_end(s, i) ==> s[k] != '.',
        run_end(s, i) == s.len() || s[run_end(s, i)] == '.',
    decreases s.len() - i,
{
    if i < s.len() && s[i] != '.' {
        lemma_run_end_bounds(s, i + 1);
    }
}

/// The end of the non-dot run starting at `i`.
pub fn run_end_from(v: &Vec<char>, i: usize) -> (e: usize)
    requires
        i <= v@.len(),
    ensures
        e == run_end(v@, i as int),
        i <= e <= v@.len(),
{
    let mut j: usize = i;
    while j < v.len() && v[j] != '.'
        invariant
            i <= j <= v@.len(),
            run_end(v@, i as int) == run_end(v@, j as int),
        decreases v@.len() - j,
    {
        j = j + 1;
    }
    j
}

/// `query` with each `$name` token (a dollar sign followed by a maximal
/// nonempty run of non-dot characters) substituted from position `i` on:
/// the `service` binding for `$service`, the `environment` binding for
/// `$environment`; any other token is kept as written.
pub open spec fn subst_from(s: Seq<char>, sv: Seq<char>, ev: Seq<char>, i: int) -> Seq<char>
    decreases s.len() - i,
    when 0 <= i
    via subst_from_decreases
{
    if i >= s.len() {
        Seq::empty()
    } else if s[i] == '$' && run_end(s, i + 1) > i + 1 {
        let e = run_end(s, i + 1);
        let name = s.subrange(i + 1, e);
        let rest = subst_from(s, sv, ev, e);
        if name == "service"@ {
            sv + rest
        } else if name == "environment"@ {
            ev + rest
        } else {
            s.subrange(i, e) + rest
        }
    } else {
        seq![s[i]] + subst_from(s, sv, ev, i + 1)
    }
}

#[via_fn]
proof fn subst_from_decreases(s: Seq<char>, sv: Seq<char>, ev: Seq<char>, i: int) {
    if 0 <= i < s.len() {
        lemma_run_end_bounds(s, i + 1);
    }
}

/// The whole query, substituted.
pub open spec fn subst_spec(s: Seq<char>, sv: Seq<char>, ev: Seq<char>) -> Seq<char> {
    subst_from(s, sv, ev, 0)
}

/// Substitute `$service` and `$environment` tokens in `query`; a token is a
/// `$` followed by a maximal nonempty run of non-dot characters, and tokens
/// with any other name stay as written.
pub fn substitute(query: &str, service: &str, environment: &str) -> (r: String)
    ensures
        r@ == subst_spec(query@, service@, environment@),
{
    let v = chars_of(query);
    let sv = chars_of(service);
    let ev = chars_of(environment);
    let name_service = chars_of("service");
    let name_environment = chars_of("environment");
    let mut out: Vec<char> = Vec::new();
    let mut i: usize = 0;
    while i < v.len()
        invariant
            0 <= i <= v@.len(),
            v@ == query@,
            sv@ == service@,
            ev@ == environment@,
            name_service@ == "service"@,
            name_environment@ == "environment"@,
            subst_spec(query@, service@, environment@) == out@ + subst_from(
                v@,
                sv@,
                ev@,
                i as int,
            ),
        decreases v@.len() - i,
    {
        let ghost i0 = i as int;
        let ghost out_before = out@;
        proof {
            lemma_run_end_bounds(v@, i + 1);
        }
        let is_token = v[i] == '$' && i + 1 < v.len() && {
            let e = run_end_from(&v, i + 1);
            e > i + 1
        };
        if is_token {
            let e = run_end_from(&v, i + 1);
            let nlen = e - (i + 1);
            let ghost name = v@.subrange(i0 + 1, e as int);
            let svc_match = if nlen == name_service.len() {
                chars_eq_at(&v, i + 1, &name_service)
            } else {
                false
            };
            assert(svc_match == (name == "service"@)) by {
                if nlen == name_service@.len() {
                    assert(v@.subrange(i0 + 1, i0 + 1 + name_service@.len()) == name);
                } else {
                    assert(name.len() == e - (i0 + 1));
                }
            }
            let env_match = if nlen == name_environment.len() {
                chars_eq_at(&v, i + 1, &name_environment)
            } else {
                false
            };
            assert(env_match == (name == "environment"@)) by {
                if nlen == name_environment@.len() {
                    assert(v@.subrange(i0 + 1, i0 + 1 + name_environment@.len()) == name);
                } else {
                    assert(name.len() == e - (i0 + 1));
                }
            }
            let ghost piece = if name == "service"@ {
                sv@
            } else if name == "environment"@ {
                ev@
            } else {
                v@.subrange(i0, e as int)
            };
            if svc_match {
                push_all(&mut out, &sv);
            } else if env_match {
                push_all(&mut out, &ev);
            } else {
                let ghost out0 = out@;
                let mut k: usize = i;
                while k < e
                    invariant
                        i <= k <= e <= v@.len(),
                        out@ == out0 + v@.subrange(i as int, k as int),
                    decreases e - k,
                {
                    out.push(v[k]);
                    k = k + 1;
                    assert(out@ =~= out0 + v@.subrange(i as int, k as int));
                }
            }
            assert(out@ == out_before + piece);
            i = e;
            proof {
                assert(subst_from(v@, sv@, ev@, i0) == piece + subst_from(v@, sv@, ev@, i as int));
                assert(out_before + (piece + subst_from(v@, sv@, ev@, i as int)) =~= (out_before
                    + piece) + subst_from(v@, sv@, ev@, i as int));
            }
        } else {
            let ghost piece = seq![v@[i0]];
            out.push(v[i]);
            i = i + 1;
            proof {
                assert(subst_from(v@, sv@, ev@, i0) == piece + subst_from(v@, sv@, ev@, i as int));
                assert(out_before + (piece + subst_from(v@, sv@, ev@, i as int)) =~= (out_before
                    + piece) + subst_from(v@, sv@, ev@, i as int));
                assert(out@ == out_before + piece);
            }
        }
        assert(subst_spec(query@, service@, environment@) == out@ + subst_from(
            v@,
            sv@,
            ev@,
            i as int,
        ));
    }
    assert(subst_from(v@, sv@, ev@, i as int) == Seq::<char>::empty());
    assert(out@ =~= subst_spec(query@, service@, environment@));
    string_of(&out)
}

/// `run_end` across a concatenation, for positions at or past the first
/// part: a run never reaches back into it.
pub proof fn lemma_run_end_concat(a: Seq<char>, b: Seq<char>, x: int)
    requires
        a.len() <= x <= a.len() + b.len(),
    ensures
        run_end(a + b, x) == a.len() + run_end(b, x - a.len()),
    decreases a.len() + b.len() - x,
{
    let s = a + b;
    if x >= s.len() {
    } else if s[x] == '.' {
        assert(b[x - a.len()] == '.');
    } else {
        assert(s[x] == b[x - a.len()]);
        lemma_run_end_concat(a, b, x + 1);
    }
}

/// The variable token starting at a `$` position: the maximal run of
/// non-dot characters after it.
pub open spec fn token_at(s: Seq<char>, p: int) -> Seq<char> {
    s.subrange(p + 1, run_end(s, p + 1))
}

/// No `$` of `s` starts a token named `service` or `environment`.
pub open spec fn no_var_tokens(s: Seq<char>) -> bool {
    forall|p: int|
        0 <= p < s.len() && s[p] == '$' ==> #[trigger] token_at(s, p) != "service"@ && token_at(
            s,
            p,
        ) != "environment"@
}

/// `s` holds no dollar sign.
pub open spec fn no_dollar(s: Seq<char>) -> bool {
    forall|i: int| 0 <= i < s.len() ==> s[i] != '$'
}

/// Any two dollar signs of `s` have a dot between them, so no token holds
/// a further dollar sign.
pub open spec fn dollars_separated(s: Seq<char>) -> bool {
    forall|i: int, j: int|
        0 <= i < j < s.len() && #[trigger] s[i] == '$' && #[trigger] s[j] == '$' ==> exists|
            k: int,
        |
            i < k < j && s[k] == '.'
}

/// After substitution no known-variable token remains: wherever the result
/// holds a `$`, the token it starts is neither `service` nor `environment`.
/// Holds when the substituted values carry no `$` of their own and the
/// query separates its dollar signs by dots; a value with a `$`, or two
/// adjacent tokens run together, can reassemble a known token.
pub proof fn lemma_subst_no_var_tokens(q: Seq<char>, sv: Seq<char>, ev: Seq<char>, i: int)
    requires
        0 <= i <= q.len(),
        no_dollar(sv),
        no_dollar(ev),
        dollars_separated(q),
    ensures
        no_var_tokens(subst_from(q, sv, ev, i)),
    decreases q.len() - i,
{
    reveal_strlit("service");
    reveal_strlit("environment");
    let r = subst_from(q, sv, ev, i);
    if i >= q.len() {
        assert(r == Seq::<char>::empty());
        assert forall|p: int|
            0 <= p < r.len() && r[p] == '$' implies #[trigger] token_at(r, p) != "service"@
            && token_at(r, p) != "environment"@ by {}
    } else {
        lemma_run_end_bounds(q, i + 1);
        if q[i] == '$' && run_end(q, i + 1) > i + 1 {
            let e = run_end(q, i + 1);
            let name = q.subrange(i + 1, e);
            let rest = subst_from(q, sv, ev, e);
            lemma_subst_no_var_tokens(q, sv, ev, e);
            let piece: Seq<char> = if name == "service"@ {
                sv
            } else if name == "environment"@ {
                ev
            } else {
                q.subrange(i, e)
            };
            assert(r == piece + rest);
            assert forall|p: int|
                0 <= p < r.len() && r[p] == '$' implies #[trigger] token_at(r, p) != "service"@
                && token_at(r, p) != "environment"@ by {
                if p < piece.len() {
                    if name == "service"@ || name == "environment"@ {
                        assert(piece[p] != '$');
                        assert(false);
                    } else {
                        assert(piece[p] == q[i + p]);
                        if p > 0 {
                            assert(q[i] == '$' && q[i + p] == '$');
                            let k = choose|k: int| i < k < i + p && q[k] == '.';
                            assert(q[k] != '.');
                            assert(false);
                        }
                        assert(p == 0);
                        assert forall|k: int| 1 <= k < piece.len() implies r[k] != '.' by {
                            assert(r[k] == q[i + k]);
                        }
                        if e < q.len() {
                            assert(q[e] == '.');
                            assert(subst_from(q, sv, ev, e) == seq![q[e]] + subst_from(
                                q,
                                sv,
                                ev,
                                e + 1,
                            ));
                            assert(r[piece.len() as int] == '.');
                            lemma_run_end_scan(r, 1, piece.len() as int);
                            assert(token_at(r, 0) =~= name);
                        } else {
                            assert(rest == Seq::<char>::empty());
                            assert(r =~= piece);
                            assert(r.len() == piece.len());
                            lemma_run_end_scan(r, 1, piece.len() as int);
                            assert(token_at(r, 0) =~= name);
                        }
                    }
                } else {
                    assert(r[p] == rest[p - piece.len()]);
                    lemma_run_end_concat(piece, rest, p + 1);
                    lemma_run_end_bounds(rest, p + 1 - piece.len());
                    assert(token_at(r, p) =~= token_at(rest, p - piece.len()));
                }
            }
        } else {
            let rest = subst_from(q, sv, ev, i + 1);
            lemma_subst_no_var_tokens(q, sv, ev, i + 1);
            let piece = seq![q[i]];
            assert(r == piece + rest);
            assert forall|p: int|
                0 <= p < r.len() && r[p] == '$' implies #[trigger] token_at(r, p) != "service"@
                && token_at(r, p) != "environment"@ by {
                if p == 0 {
                    assert(q[i] == '$');
                    assert(run_end(q, i + 1) == i + 1);
                    if i + 1 >= q.len() {
                        assert(rest == Seq::<char>::empty());
                        assert(r =~= piece);
                        assert(run_end(r, 1) == 1);
                        assert(token_at(r, 0) =~= Seq::<char>::empty());
                        assert("service"@.len() == 7);
                        assert("environment"@.len() == 11);
                    } else {
                        assert(q[i + 1] == '.');
                        assert(subst_from(q, sv, ev, i + 1) == seq![q[i + 1]] + subst_from(
                            q,
                            sv,
                            ev,
                            i + 2,
                        ));
                        assert(r[1] == '.');
                        lemma_run_end_scan(r, 1, 1);
                        assert(token_at(r, 0) =~= Seq::<char>::empty());
                        assert("service"@.len() == 7);
                        assert("environment"@.len() == 11);
                    }
                } else {
                    assert(r[p] == rest[p - 1]);
                    lemma_run_end_concat(piece, rest, p + 1);
                    lemma_run_end_bounds(rest, p);
                    assert(token_at(r, p) =~= token_at(rest, p - 1));
                }
            }
        }
    }
}

/// Whether `m` occurs in `s` at position `q`.
pub open spec fn occ_at(s: Seq<char>, m: Seq<char>, q: int) -> bool {
    0 <= q && q + m.len() <= s.len() && s.subrange(q, q + m.len()) == m
}

/// `s` from position `i` on, with every occurrence of `m` replaced by `t`,
/// scanning left to right without overlap.
pub open spec fn replace_from(s: Seq<char>, m: Seq<char>, t: Seq<char>, i: int) -> Seq<char>
    decreases s.len() - i,
    when 0 <= i && m.len() > 0
{
    if i >= s.len() {
        Seq::empty()
    } else if occ_at(s, m, i) {
        t + replace_from(s, m, t, i + m.len() as int)
    } else {
        seq![s[i]] + replace_from(s, m, t, i + 1)
    }
}

/// `s` with every occurrence of `m` replaced by `t`; the empty pattern
/// replaces nothing.
pub open spec fn replace_spec(s: Seq<char>, m: Seq<char>, t: Seq<char>) -> Seq<char> {
    if m.len() == 0 {
        s
    } else {
        replace_from(s, m, t, 0)
    }
}

/// `hay` with every occurrence of `from` replaced by `to`, scanning left to
/// right without overlap, as `str::replace` does.
pub fn replace_all(hay: &str, from: &str, to: &str) -> (r: String)
    requires
        from@.len() > 0,
    ensures
        r@ == replace_spec(hay@, from@, to@),
{
    let v = chars_of(hay);
    let m = chars_of(from);
    let t = chars_of(to);
    let mut out: Vec<char> = Vec::new();
    let mut i: usize = 0;
    while i < v.len()
        invariant
            0 <= i <= v@.len(),
            v@ == hay@,
            m@ == from@,
            t@ == to@,
            m@.len() > 0,
            replace_spec(hay@, from@, to@) == out@ + replace_from(v@, m@, t@, i as int),
        decreases v@.len() - i,
    {
        let ghost i0 = i as int;
        let ghost out_before = out@;
        let matched = if m.len() <= v.len() - i {
            chars_eq_at(&v, i, &m)
        } else {
            false
        };
        assert(matched == occ_at(v@, m@, i0));
        let ghost piece = if occ_at(v@, m@, i0) {
            t@
        } else {
            seq![v@[i0]]
        };
        if matched {
            push_all(&mut out, &t);
            i = i + m.len();
        } else {
            out.push(v[i]);
            i = i + 1;
        }
        proof {
            assert(out@ == out_before + piece);
            assert(replace_from(v@, m@, t@, i0) == piece + replace_from(v@, m@, t@, i as int));
            assert(out_before + (piece + replace_from(v@, m@, t@, i as int)) =~= (out_before
                + piece) + replace_from(v@, m@, t@, i as int));
        }
    }
    assert(replace_from(v@, m@, t@, i as int) == Seq::<char>::empty());
    assert(out@ =~= replace_spec(hay@, from@, to@));
    string_of(&out)
}

/// `s` holds no hyphen.
pub open spec fn no_dash(s: Seq<char>) -> bool {
    forall|i: int| 0 <= i < s.len() ==> s[i] != '-'
}

/// Every hyphen at or after `k` lies inside an occurrence of `m` that
/// starts at or after `k`.
pub open spec fn dash_covered_from(s: Seq<char>, m: Seq<char>, k: int) -> bool {
    forall|p: int|
        k <= p < s.len() && #[trigger] s[p] == '-' ==> exists|q: int|
            k <= q && occ_at(s, m, q) && q <= p < q + m.len()
}

/// No two occurrences of `m` in `s` overlap.
pub open spec fn occs_disjoint(s: Seq<char>, m: Seq<char>) -> bool {
    forall|q1: int, q2: int|
        #[trigger] occ_at(s, m, q1) && #[trigger] occ_at(s, m, q2) && q1 < q2 ==> q2 >= q1
            + m.len()
}

/// Replacing `m` by a hyphen-free text removes every hyphen, when each
/// hyphen lies inside an occurrence of `m` and the occurrences do not
/// overlap. (With overlapping occurrences the scan can leave one behind:
/// replacing `a-a` in `a-a-a` leaves `a_a-a`.)
pub proof fn lemma_replace_removes_dashes(s: Seq<char>, m: Seq<char>, t: Seq<char>, k: int)
    requires
        m.len() > 0,
        no_dash(t),
        occs_disjoint(s, m),
        dash_covered_from(s, m, k),
        0 <= k,
    ensures
        no_dash(replace_from(s, m, t, k)),
    decreases s.len() - k,
{
    let r = replace_from(s, m, t, k);
    if k >= s.len() {
    } else if occ_at(s, m, k) {
        assert forall|p: int|
            k + m.len() <= p < s.len() && #[trigger] s[p] == '-' implies exists|q: int|
            k + m.len() <= q && occ_at(s, m, q) && q <= p < q + m.len() by {
            let q = choose|q: int| k <= q && occ_at(s, m, q) && q <= p < q + m.len();
            if q < k + m.len() {
                if q > k {
                    assert(occ_at(s, m, k) && occ_at(s, m, q) && k < q);
                    assert(q >= k + m.len());
                }
                assert(q == k);
                assert(p < k + m.len());
                assert(false);
            }
        }
        lemma_replace_removes_dashes(s, m, t, k + m.len() as int);
        let rest = replace_from(s, m, t, k + m.len() as int);
        assert(r == t + rest);
        assert forall|i: int| 0 <= i < r.len() implies r[i] != '-' by {
            if i < t.len() {
                assert(r[i] == t[i]);
            } else {
                assert(r[i] == rest[i - t.len()]);
            }
        }
    } else {
        assert(s[k] != '-') by {
            if s[k] == '-' {
                let q = choose|q: int| k <= q && occ_at(s, m, q) && q <= k < q + m.len();
                assert(q == k);
            }
        }
        assert forall|p: int|
            k + 1 <= p < s.len() && #[trigger] s[p] == '-' implies exists|q: int|
            k + 1 <= q && occ_at(s, m, q) && q <= p < q + m.len() by {
            let q = choose|q: int| k <= q && occ_at(s, m, q) && q <= p < q + m.len();
            assert(q != k);
        }
        lemma_replace_removes_dashes(s, m, t, k + 1);
        let rest = replace_from(s, m, t, k + 1);
        assert(r == seq![s[k]] + rest);
        assert forall|i: int| 0 <= i < r.len() implies r[i] != '-' by {
            if i > 0 {
                assert(r[i] == rest[i - 1]);
            }
        }
    }
}

/// Rewriting one hyphenated identifier to its underscore form leaves no
/// hyphen at all, when every hyphen of the expression lies inside a
/// non-overlapping occurrence of the identifier.
pub proof fn lemma_replace_spec_no_dash(e: Seq<char>, m: Seq<char>)
    requires
        m.contains('-'),
        dash_covered_from(e, m, 0),
        occs_disjoint(e, m),
    ensures
        no_dash(replace_spec(e, m, dash_to_underscore_spec(m))),
{
    assert(m.len() > 0);
    assert(no_dash(dash_to_underscore_spec(m)));
    lemma_replace_removes_dashes(e, m, dash_to_underscore_spec(m), 0);
}

/// The decimal digit character for `d`.
pub open spec fn digit_char(d: nat) -> char {
    if d == 0 {
        '0'
    } else if d == 1 {
        '1'
    } else if d == 2 {
        '2'
    } else if d == 3 {
        '3'
    } else if d == 4 {
        '4'
    } else if d == 5 {
        '5'
    } else if d == 6 {
        '6'
    } else if d == 7 {
        '7'
    } else if d == 8 {
        '8'
    } else {
        '9'
    }
}

/// The decimal rendering of `n`, most significant digit first, no sign and
/// no leading zero.
pub open spec fn dec_spec(n: nat) -> Seq<char>
    decreases n,
{
    if n < 10 {
        seq![digit_char(n)]
    } else {
        dec_spec(n / 10).push(digit_char(n % 10))
    }
}

/// The decimal rendering of `n`.
pub fn u64_to_dec(n: u64) -> (r: String)
    ensures
        r@ == dec_spec(n as nat),
{
    let mut rev: Vec<char> = Vec::new();
    let mut x: u64 = n;
    loop
        invariant_except_break
            (rev@.len() == 0 && x == n) || (x > 0 && dec_spec(n as nat) == dec_spec(x as nat)
                + rev@.reverse()),
        ensures
            dec_spec(n as nat) == rev@.reverse(),
        decreases x,
    {
        let d = x % 10;
        let c = if d == 0 {
            '0'
        } else if d == 1 {
            '1'
        } else if d == 2 {
            '2'
        } else if d == 3 {
            '3'
        } else if d == 4 {
            '4'
        } else if d == 5 {
            '5'
        } else if d == 6 {
            '6'
        } else if d == 7 {
            '7'
        } else if d == 8 {
            '8'
        } else {
            '9'
        };
        assert(c == digit_char((x % 10) as nat));
        let ghost rev0 = rev@;
        rev.push(c);
        assert(rev@.reverse() =~= seq![c] + rev0.reverse());
        let ghost x0 = x as nat;
        x = x / 10;
        proof {
            if x0 >= 10 {
                assert(dec_spec(x0) == dec_spec(x0 / 10).push(digit_char(x0 % 10)));
                assert(dec_spec(x0 / 10).push(digit_char(x0 % 10)) =~= dec_spec(x0 / 10) + seq![
                    digit_char(x0 % 10),
                ]);
                assert(dec_spec(x0 / 10) + seq![digit_char(x0 % 10)] + rev0.reverse() =~= dec_spec(
                    x0 / 10,
                ) + (seq![digit_char(x0 % 10)] + rev0.reverse()));
            } else {
                assert(dec_spec(x0) == seq![digit_char(x0)]);
            }
            if rev0.len() == 0 {
                assert(rev@.reverse() =~= seq![c]);
                if x0 >= 10 {
                    assert(dec_spec(n as nat) =~= dec_spec(x0 / 10) + rev@.reverse());
                }
            } else {
                assert(dec_spec(n as nat) == dec_spec(x0) + rev0.reverse());
                if x0 >= 10 {
                    assert(dec_spec(n as nat) =~= dec_spec(x0 / 10) + rev@.reverse());
                } else {
                    assert(dec_spec(n as nat) =~= rev@.reverse());
                }
            }
        }
        if x == 0 {
            break ;
        }
    }
    let mut out: Vec<char> = Vec::new();
    let mut k: usize = rev.len();
    while k > 0
        invariant
            k <= rev@.len(),
            out@ == rev@.reverse().take(rev@.len() - k),
        decreases k,
    {
        k = k - 1;
        out.push(rev[k]);
        assert(out@ =~= rev@.reverse().take(rev@.len() - k));
    }
    assert(out@ =~= rev@.reverse());
    string_of(&out)
}

/// Whether `s` begins with `p`.
pub fn begins_with(s: &str, p: &str) -> (r: bool)
    ensures
        r == (p@.len() <= s@.len() && s@.subrange(0, p@.len() as int) == p@),
{
    let v = chars_of(s);
    let w = chars_of(p);
    if w.len() > v.len() {
        return false;
    }
    chars_eq_at(&v, 0, &w)
}

/// Whether `s` ends with `p`.
pub fn ends_with(s: &str, p: &str) -> (r: bool)
    ensures
        r == (p@.len() <= s@.len() && s@.subrange(s@.len() - p@.len(), s@.len() as int) == p@),
{
    let v = chars_of(s);
    let w = chars_of(p);
    if w.len() > v.len() {
        return false;
    }
    chars_eq_at(&v, v.len() - w.len(), &w)
}

/// `s` divided at every `'.'`: one part per maximal dot-free run, with an
/// empty part between, before or after adjacent dots.
pub open spec fn split_dots_spec(s: Seq<char>) -> Seq<Seq<char>>
    decreases s.len(),
    via split_dots_decreases
{
    let e = run_end(s, 0);
    if e == s.len() {
        seq![s]
    } else {
        seq![s.subrange(0, e)] + split_dots_spec(s.skip(e + 1))
    }
}

#[via_fn]
proof fn split_dots_decreases(s: Seq<char>) {
    lemma_run_end_bounds(s, 0);
}

/// The parts of `s` between dots, in order.
pub fn split_dots(s: &str) -> (parts: Vec<String>)
    ensures
        parts@.map_values(|p: String| p@) == split_dots_spec(s@),
        parts@.len() >= 1,
{
    let v = chars_of(s);
    let mut parts: Vec<String> = Vec::new();
    let mut i: usize = 0;
    proof {
        assert(v@.skip(0) =~= v@);
        assert(parts@.map_values(|p: String| p@) =~= Seq::<Seq<char>>::empty());
        assert(Seq::<Seq<char>>::empty() + split_dots_spec(s@) =~= split_dots_spec(s@));
    }
    loop
        invariant
            0 <= i <= v@.len(),
            v@ == s@,
            split_dots_spec(s@) == parts@.map_values(|p: String| p@) + split_dots_spec(
                v@.skip(i as int),
            ),
        decreases v@.len() - i,
    {
        let ghost i0 = i as int;
        let e = run_end_from(&v, i);
        proof {
            lemma_run_end_bounds(v@, i0);
            lemma_run_end_shift(v@, i0);
        }
        let ghost rest = v@.skip(i0);
        assert(run_end(rest, 0) == e - i0);
        let mut part: Vec<char> = Vec::new();
        let mut k: usize = i;
        while k < e
            invariant
                i <= k <= e <= v@.len(),
                part@ == v@.subrange(i as int, k as int),
            decreases e - k,
        {
            part.push(v[k]);
            k = k + 1;
            assert(part@ =~= v@.subrange(i as int, k as int));
        }
        assert(part@ =~= rest.subrange(0, e - i0));
        let ghost parts0 = parts@;
        parts.push(string_of(&part));
        assert(parts@.map_values(|p: String| p@) =~= parts0.map_values(|p: String| p@) + seq![
            part@,
        ]);
        if e == v.len() {
            assert(rest.subrange(0, e - i0) =~= rest);
            assert(split_dots_spec(rest) == seq![rest]);
            assert(parts@.map_values(|p: String| p@) =~= split_dots_spec(s@));
            return parts;
        }
        i = e + 1;
        proof {
            assert(split_dots_spec(rest) == seq![rest.subrange(0, e - i0)] + split_dots_spec(
                rest.skip(e - i0 + 1),
            ));
            assert(rest.skip(e - i0 + 1) =~= v@.skip(i as int));
            assert(parts0.map_values(|p: String| p@) + (seq![part@] + split_dots_spec(
                v@.skip(i as int),
            )) =~= (parts0.map_values(|p: String| p@) + seq![part@]) + split_dots_spec(
                v@.skip(i as int),
            ));
        }
    }
}

/// `run_end` looked at through `skip`: the run end of a suffix.
pub proof fn lemma_run_end_shift(s: Seq<char>, i: int)
    requires
        0 <= i <= s.len(),
    ensures
        run_end(s.skip(i), 0) == run_end(s, i) - i,
    decreases s.len() - i,
{
    lemma_run_end_bounds(s, i);
    lemma_run_end_bounds(s.skip(i), 0);
    let e = run_end(s, i);
    let f = run_end(s.skip(i), 0) + i;
    assert forall|k: int| i <= k < e implies #[trigger] s.skip(i)[k - i] != '.' by {
        assert(s[k] != '.');
    }
    if e < s.len() {
        assert(s.skip(i)[e - i] == s[e]);
    }
    if f < s.len() {
        assert(s[f] == s.skip(i)[f - i]);
    }
    lemma_run_end_unique(s.skip(i), e - i);
}

/// Any position that looks like a run end is the run end.
pub proof fn lemma_run_end_unique(s: Seq<char>, j: int)
    requires
        0 <= j <= s.len(),
        forall|k: int| 0 <= k < j ==> s[k] != '.',
        j == s.len() || s[j] == '.',
    ensures
        run_end(s, 0) == j,
{
    lemma_run_end_scan(s, 0, j);
}

/// Scanning form of `run_end`.
pub proof fn lemma_run_end_scan(s: Seq<char>, i: int, j: int)
    requires
        0 <= i <= j <= s.len(),
        forall|k: int| i <= k < j ==> s[k] != '.',
        j == s.len() || s[j] == '.',
    ensures
        run_end(s, i) == j,
    decreases j - i,
{
    if i < j {
        lemma_run_end_scan(s, i + 1, j);
    }
}

/// The two strings, concatenated.
pub fn concat2(a: &str, b: &str) -> (r: String)
    ensures
        r@ == a@ + b@,
{
    let mut r = a.to_owned();
    r.append(b);
    r
}

/// The three strings, concatenated.
pub fn concat3(a: &str, b: &str, c: &str) -> (r: String)
    ensures
        r@ == a@ + b@ + c@,
{
    let mut r = a.to_owned();
    r.append(b);
    r.append(c);
    r
}

} // verus!
