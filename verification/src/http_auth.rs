//! HTTP API request signatures: the canonical query string, the signing
//! string `<METHOD>\n<PATH>\n<query>`, and its HMAC-SHA256 hex signature.
//! The canonical form sorts the parameters, so the signature does not
//! depend on the order a client listed them in.

use vstd::prelude::*;
use vstd::relations::{sorted_by, total_ordering};
use vstd::seq_lib::lemma_sorted_unique;
use crate::auth::{hex_of, hmac_sha256, hmac_sha256_of, constant_time_str_eq};
use crate::text::str_eq;

verus! {

/// Lexicographic order on character sequences, by code point.
pub open spec fn lex_le(a: Seq<char>, b: Seq<char>) -> bool
    decreases a.len(),
{
    if a.len() == 0 {
        true
    } else if b.len() == 0 {
        false
    } else if a[0] == b[0] {
        lex_le(a.drop_first(), b.drop_first())
    } else {
        (a[0] as int) < (b[0] as int)
    }
}

/// Order on query parameters: by key, ties broken by value.
pub open spec fn param_le(x: (Seq<char>, Seq<char>), y: (Seq<char>, Seq<char>)) -> bool {
    if x.0 == y.0 {
        lex_le(x.1, y.1)
    } else {
        lex_le(x.0, y.0)
    }
}

pub open spec fn param_leq() -> spec_fn((Seq<char>, Seq<char>), (Seq<char>, Seq<char>)) -> bool {
    |x: (Seq<char>, Seq<char>), y: (Seq<char>, Seq<char>)| param_le(x, y)
}

/// The views of a parameter list.
pub open spec fn param_views(ps: Seq<(String, String)>) -> Seq<(Seq<char>, Seq<char>)> {
    ps.map_values(|p: (String, String)| (p.0@, p.1@))
}

pub proof fn lemma_lex_le_refl(a: Seq<char>)
    ensures
        lex_le(a, a),
    decreases a.len(),
{
    if a.len() > 0 {
        lemma_lex_le_refl(a.drop_first());
    }
}

pub proof fn lemma_lex_le_total(a: Seq<char>, b: Seq<char>)
    ensures
        lex_le(a, b) || lex_le(b, a),
    decreases a.len(),
{
    if a.len() > 0 && b.len() > 0 && a[0] == b[0] {
        lemma_lex_le_total(a.drop_first(), b.drop_first());
    }
}

pub proof fn lemma_lex_le_antisym(a: Seq<char>, b: Seq<char>)
    requires
        lex_le(a, b),
        lex_le(b, a),
    ensures
        a == b,
    decreases a.len(),
{
    if a.len() == 0 {
        assert(b.len() == 0);
        assert(a =~= b);
    } else {
        assert(b.len() > 0);
        assert(a[0] == b[0]);
        lemma_lex_le_antisym(a.drop_first(), b.drop_first());
        assert(a =~= b) by {
            assert(a.drop_first().len() == a.len() - 1);
            assert(b.drop_first().len() == b.len() - 1);
            assert(a.drop_first() == b.drop_first());
            assert(a.len() == b.len());
            assert forall|i: int| 0 <= i < a.len() implies a[i] == b[i] by {
                if i > 0 {
                    assert(a.drop_first()[i - 1] == b.drop_first()[i - 1]);
                }
            }
        }
    }
}

pub proof fn lemma_lex_le_trans(a: Seq<char>, b: Seq<char>, c: Seq<char>)
    requires
        lex_le(a, b),
        lex_le(b, c),
    ensures
        lex_le(a, c),
    decreases a.len(),
{
    if a.len() == 0 {
    } else {
        assert(b.len() > 0);
        assert(c.len() > 0);
        if a[0] == b[0] && b[0] == c[0] {
            lemma_lex_le_trans(a.drop_first(), b.drop_first(), c.drop_first());
        }
    }
}

/// `param_le` is a total ordering, as `lemma_sorted_unique` needs.
pub proof fn lemma_param_le_total_ordering()
    ensures
        total_ordering(param_leq()),
{
    let leq = param_leq();
    assert forall|x: (Seq<char>, Seq<char>)| #[trigger] leq(x, x) by {
        lemma_lex_le_refl(x.1);
    }
    assert forall|x: (Seq<char>, Seq<char>), y: (Seq<char>, Seq<char>)|
        #[trigger] leq(x, y) && #[trigger] leq(y, x) implies x == y by {
        if x.0 == y.0 {
            lemma_lex_le_antisym(x.1, y.1);
            assert(x.0 =~= y.0 && x.1 =~= y.1);
            assert(x == y);
        } else {
            lemma_lex_le_antisym(x.0, y.0);
        }
    }
    assert forall|x: (Seq<char>, Seq<char>), y: (Seq<char>, Seq<char>), z: (Seq<char>, Seq<char>)|
        #[trigger] leq(x, y) && #[trigger] leq(y, z) implies leq(x, z) by {
        if x.0 == y.0 && y.0 == z.0 {
            lemma_lex_le_trans(x.1, y.1, z.1);
        } else if x.0 == y.0 {
        } else if y.0 == z.0 {
        } else {
            lemma_lex_le_trans(x.0, y.0, z.0);
            if x.0 == z.0 {
                lemma_lex_le_antisym(x.0, y.0);
            }
        }
    }
    assert forall|x: (Seq<char>, Seq<char>), y: (Seq<char>, Seq<char>)|
        #[trigger] leq(x, y) || #[trigger] leq(y, x) by {
        if x.0 == y.0 {
            lemma_lex_le_total(x.1, y.1);
        } else {
            lemma_lex_le_total(x.0, y.0);
        }
    }
}

fn str_lex_le(a: &str, b: &str) -> (r: bool)
    ensures
        r == lex_le(a@, b@),
{
    let n = a.unicode_len();
    let m = b.unicode_len();
    let mut i: usize = 0;
    proof {
        assert(a@.skip(0) =~= a@);
        assert(b@.skip(0) =~= b@);
    }
    loop
        invariant
            i <= n,
            i <= m,
            n == a@.len(),
            m == b@.len(),
            lex_le(a@, b@) == lex_le(a@.skip(i as int), b@.skip(i as int)),
            lex_le(b@, a@) == lex_le(b@.skip(i as int), a@.skip(i as int)),
        decreases n - i,
    {
        if i == n {
            proof {
                assert(a@.skip(i as int).len() == 0);
            }
            return true;
        }
        if i == m {
            proof {
                assert(b@.skip(i as int).len() == 0);
                assert(a@.skip(i as int).len() > 0);
            }
            return false;
        }
        let ca = a.get_char(i);
        let cb = b.get_char(i);
        proof {
            assert(a@.skip(i as int)[0] == a@[i as int]);
            assert(b@.skip(i as int)[0] == b@[i as int]);
            assert(a@.skip(i as int).drop_first() =~= a@.skip(i + 1));
            assert(b@.skip(i as int).drop_first() =~= b@.skip(i + 1));
        }
        if ca != cb {
            return (ca as u32) < (cb as u32);
        }
        i += 1;
    }
}

fn param_le_exec(x: &(String, String), y: &(String, String)) -> (r: bool)
    ensures
        r == param_le((x.0@, x.1@), (y.0@, y.1@)),
{
    if str_eq(x.0.as_str(), y.0.as_str()) {
        str_lex_le(x.1.as_str(), y.1.as_str())
    } else {
        str_lex_le(x.0.as_str(), y.0.as_str())
    }
}

/// Where `p` belongs in the sorted prefix: everything before stays at or
/// under it.
fn find_insert_pos(r: &Vec<(String, String)>, p: &(String, String)) -> (k: usize)
    ensures
        k <= r@.len(),
        forall|j: int| 0 <= j < k ==> param_le((#[trigger] r@[j].0@, r@[j].1@), (p.0@, p.1@)),
        k < r@.len() ==> !param_le((r@[k as int].0@, r@[k as int].1@), (p.0@, p.1@)),
{
    let m = r.len();
    let mut k: usize = 0;
    while k < m
        invariant
            k <= m,
            m == r@.len(),
            forall|j: int| 0 <= j < k ==> param_le((#[trigger] r@[j].0@, r@[j].1@), (p.0@, p.1@)),
        decreases m - k,
    {
        if !param_le_exec(&r[k], p) {
            return k;
        }
        k += 1;
    }
    k
}

/// Insertion sort of the parameter list under `param_le`, over the views.
fn sort_params(params: &Vec<(String, String)>) -> (r: Vec<(String, String)>)
    ensures
        sorted_by(param_views(r@), param_leq()),
        param_views(r@).to_multiset() == param_views(params@).to_multiset(),
{
    let mut r: Vec<(String, String)> = Vec::new();
    let n = params.len();
    let mut i: usize = 0;
    proof {
        assert(param_views(r@) =~= Seq::<(Seq<char>, Seq<char>)>::empty());
        assert(param_views(params@.subrange(0, 0)) =~= Seq::<(Seq<char>, Seq<char>)>::empty());
    }
    while i < n
        invariant
            i <= n,
            n == params@.len(),
            sorted_by(param_views(r@), param_leq()),
            param_views(r@).to_multiset() == param_views(params@.subrange(0, i as int)).to_multiset(),
        decreases n - i,
    {
        let p = (String::from_str(params[i].0.as_str()), String::from_str(params[i].1.as_str()));
        let ghost pv = (p.0@, p.1@);
        let ghost r_pre = r@;
        let m = r.len();
        let k = find_insert_pos(&r, &p);
        proof {
            assert forall|j: int| 0 <= j < k implies param_le(#[trigger] param_views(r@)[j], pv)
            by {
                assert(param_views(r@)[j] == (r@[j].0@, r@[j].1@));
            }
            if k < m {
                let a = (r@[k as int].0@, r@[k as int].1@);
                assert(!param_le(a, pv));
                assert(param_views(r@)[k as int] == a);
                lemma_lex_le_total(a.1, pv.1);
                lemma_lex_le_total(a.0, pv.0);
                assert(param_le(pv, a));
            }
        }
        r.insert(k, p);
        proof {
            let leq = param_leq();
            let vs = param_views(r@);
            let vs_pre = param_views(r_pre);
            assert(vs =~= vs_pre.insert(k as int, pv));
            // sortedness of the new list
            lemma_param_le_total_ordering();
            assert forall|x: int, y: int| 0 <= x <= y < vs.len() implies #[trigger] leq(
                vs[x],
                vs[y],
            ) by {
                let ox = if x < k as int {
                    x
                } else {
                    x - 1
                };
                let oy = if y < k as int {
                    y
                } else {
                    y - 1
                };
                if x == y {
                    assert(leq(vs[x], vs[x]));
                } else if x < k as int && y < k as int {
                    assert(vs[x] == vs_pre[ox] && vs[y] == vs_pre[oy]);
                    assert(leq(vs_pre[ox], vs_pre[oy]));
                } else if x == k as int && y > k as int {
                    assert(vs[x] == pv && vs[y] == vs_pre[oy]);
                    // pv <= vs_pre[k] <= vs_pre[oy]
                    assert(leq(pv, vs_pre[k as int]));
                    assert(leq(vs_pre[k as int], vs_pre[oy]));
                } else if x < k as int && y == k as int {
                    assert(vs[x] == vs_pre[ox] && vs[y] == pv);
                    assert(leq(vs_pre[ox], pv));
                } else if x < k as int && y > k as int {
                    assert(vs[x] == vs_pre[ox] && vs[y] == vs_pre[oy]);
                    assert(leq(vs_pre[ox], vs_pre[oy]));
                } else {
                    // k < x < y
                    assert(vs[x] == vs_pre[ox] && vs[y] == vs_pre[oy]);
                    assert(leq(vs_pre[ox], vs_pre[oy]));
                }
            }
            // multiset bookkeeping
            vstd::seq_lib::to_multiset_insert(vs_pre, k as int, pv);
            assert(vs.to_multiset() == vs_pre.to_multiset().insert(pv)) by {
                assert(vs == vs_pre.insert(k as int, pv));
            }
            let prefix = param_views(params@.subrange(0, i as int));
            let prefix1 = param_views(params@.subrange(0, i + 1));
            assert(prefix1 =~= prefix.push(pv));
            vstd::seq_lib::to_multiset_build(prefix, pv);
            assert(prefix1.to_multiset() == prefix.to_multiset().insert(pv));
        }
        i += 1;
    }
    proof {
        assert(params@.subrange(0, n as int) =~= params@);
    }
    r
}

/// The canonical query text of a sorted parameter list:
/// `k=v` joined by `&`.
pub open spec fn spec_query_of(ps: Seq<(Seq<char>, Seq<char>)>) -> Seq<char>
    decreases ps.len(),
{
    if ps.len() == 0 {
        Seq::<char>::empty()
    } else if ps.len() == 1 {
        ps[0].0 + "="@ + ps[0].1
    } else {
        spec_query_of(ps.drop_last()) + "&"@ + ps.last().0 + "="@ + ps.last().1
    }
}

/// The canonical query of any parameter list: its sorted form, joined.
pub open spec fn spec_canonical_query(ps: Seq<(Seq<char>, Seq<char>)>) -> Seq<char> {
    spec_query_of(ps.sort_by(param_leq()))
}

/// The string the HTTP API signs: `<METHOD>\n<PATH>\n<canonical query>`.
pub open spec fn spec_http_signing_string(
    method: Seq<char>,
    path: Seq<char>,
    ps: Seq<(Seq<char>, Seq<char>)>,
) -> Seq<char> {
    method + "\n"@ + path + "\n"@ + spec_canonical_query(ps)
}

/// The expected `auth_signature` value.
pub open spec fn spec_http_signature(
    secret: Seq<char>,
    method: Seq<char>,
    path: Seq<char>,
    ps: Seq<(Seq<char>, Seq<char>)>,
) -> Seq<char> {
    hex_of(hmac_sha256_of(secret, spec_http_signing_string(method, path, ps)))
}

pub fn http_signing_string(method: &str, path: &str, params: &Vec<(String, String)>) -> (r: String)
    ensures
        r@ == spec_http_signing_string(method@, path@, param_views(params@)),
{
    let sorted = sort_params(params);
    proof {
        lemma_param_le_total_ordering();
        param_views(params@).lemma_sort_by_ensures(param_leq());
        lemma_sorted_unique(
            param_views(sorted@),
            param_views(params@).sort_by(param_leq()),
            param_leq(),
        );
    }
    let mut q = String::new();
    let n = sorted.len();
    let mut i: usize = 0;
    while i < n
        invariant
            i <= n,
            n == sorted@.len(),
            q@ == spec_query_of(param_views(sorted@).subrange(0, i as int)),
        decreases n - i,
    {
        if i > 0 {
            q.append("&");
        }
        q.append(sorted[i].0.as_str());
        q.append("=");
        q.append(sorted[i].1.as_str());
        proof {
            let vs = param_views(sorted@);
            assert(vs.subrange(0, i + 1).drop_last() =~= vs.subrange(0, i as int));
            assert(vs.subrange(0, i + 1).last() == vs[i as int]);
            assert(vs[i as int] == (sorted@[i as int].0@, sorted@[i as int].1@));
            if i == 0 {
                assert(vs.subrange(0, 1).len() == 1);
                assert(q@ =~= spec_query_of(vs.subrange(0, 1)));
            }
        }
        i += 1;
    }
    proof {
        assert(param_views(sorted@).subrange(0, n as int) =~= param_views(sorted@));
    }
    let mut r = String::from_str(method);
    r.append("\n");
    r.append(path);
    r.append("\n");
    r.append(q.as_str());
    r
}

/// The `auth_signature` a trusted server computes for a request.
pub fn http_signature(secret: &str, method: &str, path: &str, params: &Vec<(String, String)>) -> (r:
    String)
    ensures
        r@ == spec_http_signature(secret@, method@, path@, param_views(params@)),
{
    let signing = http_signing_string(method, path, params);
    let mac = hmac_sha256(secret, signing.as_str());
    crate::auth::hex_encode(&mac)
}

/// Accept a request signature exactly when it equals the expected one.
pub fn verify_http_signature(
    secret: &str,
    method: &str,
    path: &str,
    params: &Vec<(String, String)>,
    signature: &str,
) -> (r: bool)
    ensures
        r == (signature@ == spec_http_signature(secret@, method@, path@, param_views(params@))),
{
    let expected = http_signature(secret, method, path, params);
    constant_time_str_eq(signature, expected.as_str())
}

/// Drop every pair under `key` (as `auth_signature` is dropped before
/// signing).
pub fn remove_param(params: &Vec<(String, String)>, key: &str) -> (r: Vec<(String, String)>)
    ensures
        param_views(r@) == param_views(params@).filter(
            |p: (Seq<char>, Seq<char>)| p.0 != key@,
        ),
{
    let mut r: Vec<(String, String)> = Vec::new();
    let n = params.len();
    let mut i: usize = 0;
    proof {
        assert(params@.subrange(0, 0) =~= Seq::<(String, String)>::empty());
        assert(param_views(r@) =~= param_views(params@.subrange(0, 0)).filter(
            |p: (Seq<char>, Seq<char>)| p.0 != key@,
        ));
    }
    while i < n
        invariant
            i <= n,
            n == params@.len(),
            param_views(r@) == param_views(params@.subrange(0, i as int)).filter(
                |p: (Seq<char>, Seq<char>)| p.0 != key@,
            ),
        decreases n - i,
    {
        let ghost f = |p: (Seq<char>, Seq<char>)| p.0 != key@;
        let ghost vs_pre = param_views(r@);
        let keep = !str_eq(params[i].0.as_str(), key);
        if keep {
            r.push(
                (String::from_str(params[i].0.as_str()), String::from_str(params[i].1.as_str())),
            );
        }
        proof {
            let prefix = param_views(params@.subrange(0, i as int));
            let prefix1 = param_views(params@.subrange(0, i + 1));
            let pv = (params@[i as int].0@, params@[i as int].1@);
            assert(prefix1 =~= prefix.push(pv));
            assert(prefix.push(pv).drop_last() =~= prefix);
            reveal_with_fuel(Seq::filter, 2);
            assert(prefix1.filter(f) == if f(pv) {
                prefix.filter(f).push(pv)
            } else {
                prefix.filter(f)
            });
            if keep {
                assert(param_views(r@) =~= vs_pre.push(pv));
            }
        }
        i += 1;
    }
    proof {
        assert(params@.subrange(0, n as int) =~= params@);
    }
    r
}

/// The HTTP signature does not depend on the order the query parameters
/// were listed in: any two permutations of the same parameters sign — and
/// verify — identically.
pub proof fn lemma_http_signature_order_independent(
    secret: Seq<char>,
    method: Seq<char>,
    path: Seq<char>,
    ps1: Seq<(Seq<char>, Seq<char>)>,
    ps2: Seq<(Seq<char>, Seq<char>)>,
)
    requires
        ps1.to_multiset() == ps2.to_multiset(),
    ensures
        spec_canonical_query(ps1) == spec_canonical_query(ps2),
        spec_http_signature(secret, method, path, ps1) == spec_http_signature(
            secret,
            method,
            path,
            ps2,
        ),
{
    lemma_param_le_total_ordering();
    ps1.lemma_sort_by_ensures(param_leq());
    ps2.lemma_sort_by_ensures(param_leq());
    lemma_sorted_unique(ps1.sort_by(param_leq()), ps2.sort_by(param_leq()), param_leq());
}

} // verus!
