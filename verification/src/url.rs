use vstd::prelude::*;

use crate::text::{chars_of, push_char, views};

verus! {

/// Whether `"://"` begins at `i` in `u`.
pub open spec fn scheme_separator_at(u: Seq<char>, i: int) -> bool {
    0 <= i && i + 3 <= u.len() && u[i] == ':' && u[i + 1] == '/' && u[i + 2] == '/'
}

/// The first position at or after `from` where `"://"` begins, if any.
pub open spec fn scheme_separator_from(u: Seq<char>, from: nat) -> Option<nat>
    decreases u.len() - from,
{
    if from + 3 > u.len() {
        None
    } else if scheme_separator_at(u, from as int) {
        Some(from)
    } else {
        scheme_separator_from(u, from + 1)
    }
}

/// Characters that end the host of a URL.
pub open spec fn ends_host(c: char) -> bool {
    c == '/' || c == '?' || c == '#' || c == ':'
}

/// Characters that end the path of a URL.
pub open spec fn ends_path(c: char) -> bool {
    c == '?' || c == '#'
}

/// The first position at or after `from` that holds a character ending the host
/// (or, with `path`, the path), or the length of `u` where there is none.
pub open spec fn stop_from(u: Seq<char>, from: nat, path: bool) -> nat
    decreases u.len() - from,
{
    if from >= u.len() {
        u.len()
    } else if (if path { ends_path(u[from as int]) } else { ends_host(u[from as int]) }) {
        from
    } else {
        stop_from(u, from + 1, path)
    }
}

/// The host of a URL: what follows the first `"://"` up to the first `/`, `?`,
/// `#` or `:`; a URL without `"://"` has none.
pub open spec fn url_host(u: Seq<char>) -> Option<Seq<char>> {
    match scheme_separator_from(u, 0) {
        Some(p) => Some(u.subrange(p + 3 as int, stop_from(u, p + 3, false) as int)),
        None => None,
    }
}

/// `h` is `s` or a subdomain of it: it equals `s` or ends with `"."` followed by `s`.
pub open spec fn is_subdomain_of(h: Seq<char>, s: Seq<char>) -> bool {
    ||| h == s
    ||| s.len() < h.len() && h.subrange(h.len() - s.len(), h.len() as int) == s
        && h[h.len() - s.len() - 1] == '.'
}

/// Whether `url` lies on the host of `seed` or one of its subdomains.
pub open spec fn same_site(url: Seq<char>, seed: Seq<char>) -> bool {
    match (url_host(url), url_host(seed)) {
        (Some(h), Some(s)) => is_subdomain_of(h, s),
        _ => false,
    }
}

/// The prefixes of `u` that end with a `/` at a position in `lo..hi`, longest
/// first, leaving out `u` itself.
pub open spec fn slash_prefixes(u: Seq<char>, lo: nat, hi: nat) -> Seq<Seq<char>>
    decreases hi,
{
    if hi <= lo || hi > u.len() {
        Seq::<Seq<char>>::empty()
    } else {
        let rest = slash_prefixes(u, lo, (hi - 1) as nat);
        if u[hi - 1] == '/' && hi < u.len() {
            seq![u.take(hi as int)] + rest
        } else {
            rest
        }
    }
}

/// The ancestors of a URL's path, deepest first: for
/// `http://llama.org/hamster/monkey/page.html` these are
/// `http://llama.org/hamster/monkey/`, `http://llama.org/hamster/` and
/// `http://llama.org/`. Query and fragment are left off; a URL without `"://"`
/// has none.
pub open spec fn url_ancestors(u: Seq<char>) -> Seq<Seq<char>> {
    match scheme_separator_from(u, 0) {
        Some(p) => slash_prefixes(u, stop_from(u, p + 3, false), stop_from(u, 0, true)),
        None => Seq::<Seq<char>>::empty(),
    }
}

/// Every position before where the path stops holds no `?`.
proof fn lemma_before_stop(u: Seq<char>, from: nat, i: int)
    requires
        from <= i < stop_from(u, from, true),
    ensures
        u[i] != '?',
    decreases u.len() - from,
{
    if from < u.len() && !ends_path(u[from as int]) && i > from {
        lemma_before_stop(u, from + 1, i);
    }
}

/// The prefixes that end at a `/` are prefixes of `u`, each shorter than `u` and
/// than every one before it, and end within `lo..hi`.
proof fn lemma_slash_prefixes(u: Seq<char>, lo: nat, hi: nat)
    ensures
        forall|k: int| 0 <= k < slash_prefixes(u, lo, hi).len() ==> {
            let p = #[trigger] slash_prefixes(u, lo, hi)[k];
            &&& lo < p.len() <= hi
            &&& p.len() < u.len()
            &&& p == u.take(p.len() as int)
            &&& u[p.len() - 1] == '/'
        },
        forall|k: int, l: int| 0 <= k < l < slash_prefixes(u, lo, hi).len()
            ==> slash_prefixes(u, lo, hi)[k].len() > slash_prefixes(u, lo, hi)[l].len(),
    decreases hi,
{
    if !(hi <= lo || hi > u.len()) {
        lemma_slash_prefixes(u, lo, (hi - 1) as nat);
        let rest = slash_prefixes(u, lo, (hi - 1) as nat);
        if u[hi - 1] == '/' && hi < u.len() {
            let all = seq![u.take(hi as int)] + rest;
            assert forall|k: int| 0 < k < all.len() implies all[k] == rest[k - 1] by {}
        }
    }
}

/// Law: the ancestors of a URL are distinct, differ from it, and hold no `?`.
pub proof fn lemma_ancestors(u: Seq<char>)
    ensures
        url_ancestors(u).no_duplicates(),
        forall|k: int| 0 <= k < url_ancestors(u).len() ==> {
            &&& #[trigger] url_ancestors(u)[k] != u
            &&& !url_ancestors(u)[k].contains('?')
        },
{
    if let Some(p) = scheme_separator_from(u, 0) {
        let lo = stop_from(u, p + 3, false);
        let hi = stop_from(u, 0, true);
        lemma_slash_prefixes(u, lo, hi);
        let a = url_ancestors(u);
        assert forall|k: int, l: int| 0 <= k < a.len() && 0 <= l < a.len() && k != l implies a[k] != a[l] by {
            if k < l {
                assert(a[k].len() > a[l].len());
            } else {
                assert(a[l].len() > a[k].len());
            }
        }
        assert forall|k: int| 0 <= k < a.len() implies {
            &&& #[trigger] a[k] != u
            &&& !a[k].contains('?')
        } by {
            let q = a[k];
            assert(q.len() < u.len());
            if q.contains('?') {
                let i = choose|i: int| 0 <= i < q.len() && q[i] == '?';
                assert(q[i] == u[i]);
                lemma_before_stop(u, 0, i);
            }
        }
    }
}

/// No `"://"` begins in `from..k`, so the search from `from` ends where the one from `k` does.
proof fn lemma_separator_skip(u: Seq<char>, from: nat, k: nat)
    requires
        from <= k,
        forall|i: int| from <= i < k ==> !scheme_separator_at(u, i),
    ensures
        scheme_separator_from(u, from) == scheme_separator_from(u, k),
    decreases k - from,
{
    if from < k {
        if from + 3 > u.len() {
            assert(scheme_separator_from(u, k) is None);
        } else {
            lemma_separator_skip(u, from + 1, k);
        }
    }
}

/// No character of `from..k` ends the host, so the host stops where it would from `k`.
proof fn lemma_host_stop_skip(u: Seq<char>, from: nat, k: nat)
    requires
        from <= k <= u.len(),
        forall|i: int| from <= i < k ==> !ends_host(u[i]),
    ensures
        stop_from(u, from, false) == stop_from(u, k, false),
    decreases k - from,
{
    if from < k {
        lemma_host_stop_skip(u, from + 1, k);
    }
}

/// Law: the host of `scheme://host rest` is `host`, where the scheme holds no
/// `:`, the host holds none of `/ ? # :`, and the rest is empty or begins with
/// one of them.
pub proof fn lemma_url_host_parts(scheme: Seq<char>, host: Seq<char>, rest: Seq<char>)
    requires
        !scheme.contains(':'),
        forall|i: int| 0 <= i < host.len() ==> !ends_host(#[trigger] host[i]),
        rest.len() == 0 || ends_host(rest[0]),
    ensures
        url_host(scheme + seq![':', '/', '/'] + host + rest) == Some(host),
{
    let u = scheme + seq![':', '/', '/'] + host + rest;
    let sl = scheme.len();
    let start = sl + 3;
    let end = start + host.len();
    assert forall|i: int| 0 <= i < sl implies !scheme_separator_at(u, i) by {
        assert(u[i] == scheme[i]);
    }
    lemma_separator_skip(u, 0, sl);
    assert(scheme_separator_at(u, sl as int));
    assert(scheme_separator_from(u, 0) == Some(sl));
    assert forall|i: int| start <= i < end implies !ends_host(u[i]) by {
        assert(u[i] == host[i - start]);
    }
    lemma_host_stop_skip(u, start, end);
    if rest.len() > 0 {
        assert(u[end as int] == rest[0]);
    }
    assert(stop_from(u, start, false) == end);
    assert(u.subrange(start as int, end as int) =~= host);
}

/// Law: a URL is on the seed's site exactly when both have a host and the URL's
/// host is the seed's host, or some labels, a dot, and the seed's host.
pub proof fn lemma_same_site_dot_suffix(url: Seq<char>, seed: Seq<char>)
    ensures
        same_site(url, seed) <==> {
            &&& url_host(url) is Some
            &&& url_host(seed) is Some
            &&& ({
                let h = url_host(url).unwrap();
                let s = url_host(seed).unwrap();
                h == s || exists|p: Seq<char>| h == p + seq!['.'] + s
            })
        },
{
    if let (Some(h), Some(s)) = (url_host(url), url_host(seed)) {
        if h != s && s.len() < h.len() && h.subrange(h.len() - s.len(), h.len() as int) == s
            && h[h.len() - s.len() - 1] == '.' {
            let p = h.take(h.len() - s.len() - 1);
            assert(h =~= p + seq!['.'] + s);
        }
        if h != s && exists|p: Seq<char>| h == p + seq!['.'] + s {
            let p = choose|p: Seq<char>| h == p + seq!['.'] + s;
            assert(h.subrange(h.len() - s.len(), h.len() as int) =~= s);
            assert(h[h.len() - s.len() - 1] == '.');
        }
    }
}

/// Every prefix ending with a `/` at a position in `lo..hi` is listed.
proof fn lemma_slash_prefixes_complete(u: Seq<char>, lo: nat, hi: nat, i: int)
    requires
        lo < i <= hi <= u.len(),
        i < u.len(),
        u[i - 1] == '/',
    ensures
        slash_prefixes(u, lo, hi).contains(u.take(i)),
    decreases hi,
{
    if i == hi {
        assert(slash_prefixes(u, lo, hi)[0] == u.take(i));
    } else {
        lemma_slash_prefixes_complete(u, lo, (hi - 1) as nat, i);
        let rest = slash_prefixes(u, lo, (hi - 1) as nat);
        let k = choose|k: int| 0 <= k < rest.len() && rest[k] == u.take(i);
        if u[hi - 1] == '/' && hi < u.len() {
            assert(slash_prefixes(u, lo, hi)[k + 1] == u.take(i));
        }
    }
}

/// Law: the host of a URL runs from just after its first `"://"` to the first
/// `/`, `?`, `#` or `:` after that (or the end); the ancestors of the URL are
/// exactly its proper prefixes that end with a `/` placed after the host and
/// no later than where the path stops (at the first `?` or `#`), longest
/// first; so where the path begins with a `/` and goes on past it, the root
/// `scheme://host/` is the last one. A URL without `"://"` has neither.
pub proof fn lemma_ancestors_are_slash_prefixes(u: Seq<char>)
    ensures
        scheme_separator_from(u, 0) is None ==> url_ancestors(u).len() == 0 && url_host(u) is None
            && forall|i: int| 0 <= i && i + 3 <= u.len() ==> !(u[i] == ':' && #[trigger] u[i + 1] == '/' && u[i + 2] == '/'),
        scheme_separator_from(u, 0) matches Some(p) ==> {
            let lo = stop_from(u, p + 3, false) as int;
            let hi = stop_from(u, 0, true) as int;
            let a = url_ancestors(u);
            &&& u[p as int] == ':' && u[p + 1 as int] == '/' && u[p + 2 as int] == '/'
            &&& forall|i: int| 0 <= i < p ==> !(u[i] == ':' && #[trigger] u[i + 1] == '/' && u[i + 2] == '/')
            &&& p + 3 <= lo <= u.len()
            &&& url_host(u) == Some(u.subrange(p + 3 as int, lo))
            &&& forall|i: int| p + 3 <= i < lo ==> {
                let c = #[trigger] u[i];
                c != '/' && c != '?' && c != '#' && c != ':'
            }
            &&& lo < u.len() ==> (u[lo] == '/' || u[lo] == '?' || u[lo] == '#' || u[lo] == ':')
            &&& hi <= u.len()
            &&& forall|i: int| 0 <= i < hi ==> #[trigger] u[i] != '?' && u[i] != '#'
            &&& hi < u.len() ==> (u[hi] == '?' || u[hi] == '#')
            &&& forall|i: int| lo < i <= hi && i < u.len() && u[i - 1] == '/' ==> a.contains(#[trigger] u.take(i))
            &&& forall|k: int| 0 <= k < a.len() ==> {
                &&& lo < (#[trigger] a[k]).len() <= hi
                &&& a[k].len() < u.len()
                &&& a[k] == u.take(a[k].len() as int)
                &&& u[a[k].len() - 1] == '/'
            }
            &&& forall|k: int, l: int| 0 <= k < l < a.len() ==> a[k].len() > a[l].len()
            &&& (lo < hi && lo + 1 < u.len() && u[lo] == '/') ==> a.len() > 0 && a.last() == u.take(lo + 1)
        },
{
    lemma_separator_first(u, 0);
    if scheme_separator_from(u, 0) is None {
        assert forall|i: int| 0 <= i && i + 3 <= u.len() implies !(u[i] == ':' && #[trigger] u[i + 1] == '/' && u[i + 2] == '/') by {
            assert(!scheme_separator_at(u, i));
        }
    }
    if let Some(p) = scheme_separator_from(u, 0) {
        let lo = stop_from(u, p + 3, false);
        let hi = stop_from(u, 0, true);
        let a = url_ancestors(u);
        lemma_slash_prefixes(u, lo, hi);
        lemma_stop_bound(u, 0, true);
        lemma_separator_first(u, 0);
        lemma_stop_bound(u, p + 3, false);
        assert forall|i: int| 0 <= i < p implies !(u[i] == ':' && #[trigger] u[i + 1] == '/' && u[i + 2] == '/') by {
            assert(!scheme_separator_at(u, i));
        }
        assert forall|i: int| lo < i <= hi && i < u.len() && u[i - 1] == '/' implies a.contains(#[trigger] u.take(i)) by {
            lemma_slash_prefixes_complete(u, lo, hi, i);
        }
        if lo < hi && lo + 1 < u.len() && u[lo as int] == '/' {
            let r = u.take(lo + 1 as int);
            assert(a.contains(r));
            let k = choose|k: int| 0 <= k < a.len() && a[k] == r;
            if k < a.len() - 1 {
                assert(a[k].len() > a[k + 1].len());
            }
        }
    }
}

/// The stop is the first position from `from` on whose character ends the host
/// (or the path), or the end.
proof fn lemma_stop_bound(u: Seq<char>, from: nat, path: bool)
    ensures
        from <= u.len() ==> from <= stop_from(u, from, path) <= u.len(),
        forall|i: int| from <= i < stop_from(u, from, path) ==> !(if path { ends_path(#[trigger] u[i]) } else { ends_host(u[i]) }),
        stop_from(u, from, path) < u.len() ==> (if path { ends_path(u[stop_from(u, from, path) as int]) } else { ends_host(u[stop_from(u, from, path) as int]) }),
    decreases u.len() - from,
{
    if from < u.len() {
        lemma_stop_bound(u, from + 1, path);
    }
}

/// The search for `"://"` finds its first place from `from` on.
proof fn lemma_separator_first(u: Seq<char>, from: nat)
    ensures
        scheme_separator_from(u, from) matches Some(p) ==> from <= p && scheme_separator_at(u, p as int)
            && forall|i: int| from <= i < p ==> !scheme_separator_at(u, i),
        scheme_separator_from(u, from) is None ==> forall|i: int| from <= i ==> !scheme_separator_at(u, i),
    decreases u.len() - from,
{
    if from + 3 <= u.len() && !scheme_separator_at(u, from as int) {
        lemma_separator_first(u, from + 1);
    }
}

/// Where `"://"` first begins in `u`.
fn scheme_separator(u: &Vec<char>) -> (p: Option<usize>)
    ensures
        p matches Some(i) ==> scheme_separator_from(u@, 0) == Some(i as nat) && i + 3 <= u@.len(),
        p is None ==> scheme_separator_from(u@, 0) is None,
{
    let mut i: usize = 0;
    while i < u.len() && u.len() - i >= 3
        invariant
            0 <= i <= u.len(),
            scheme_separator_from(u@, 0) == scheme_separator_from(u@, i as nat),
        decreases u.len() - i,
    {
        if u[i] == ':' && u[i + 1] == '/' && u[i + 2] == '/' {
            return Some(i);
        }
        i = i + 1;
    }
    None
}

/// The first position at or after `from` that ends the host (or the path).
fn stop(u: &Vec<char>, from: usize, path: bool) -> (p: usize)
    requires
        from <= u@.len(),
    ensures
        p == stop_from(u@, from as nat, path),
        from <= p <= u@.len(),
{
    let mut i = from;
    while i < u.len()
        invariant
            from <= i <= u.len(),
            stop_from(u@, from as nat, path) == stop_from(u@, i as nat, path),
        decreases u.len() - i,
    {
        let c = u[i];
        let ends = if path { c == '?' || c == '#' } else { c == '/' || c == '?' || c == '#' || c == ':' };
        if ends {
            return i;
        }
        i = i + 1;
    }
    i
}

/// The characters of `u` from `lo` to `hi`.
fn copy_range(u: &Vec<char>, lo: usize, hi: usize) -> (r: Vec<char>)
    requires
        lo <= hi <= u@.len(),
    ensures
        r@ == u@.subrange(lo as int, hi as int),
{
    let mut r: Vec<char> = Vec::new();
    let mut i = lo;
    while i < hi
        invariant
            lo <= i <= hi,
            hi <= u@.len(),
            r@ == u@.subrange(lo as int, i as int),
        decreases hi - i,
    {
        r.push(u[i]);
        i = i + 1;
        proof {
            assert(r@ =~= u@.subrange(lo as int, i as int));
        }
    }
    r
}

/// The first `n` characters of `u` as a string.
fn prefix_string(u: &Vec<char>, n: usize) -> (s: String)
    requires
        n <= u@.len(),
    ensures
        s@ == u@.take(n as int),
{
    let mut s = String::new();
    let mut i: usize = 0;
    while i < n
        invariant
            0 <= i <= n <= u@.len(),
            s@ == u@.take(i as int),
        decreases n - i,
    {
        push_char(&mut s, u[i]);
        i = i + 1;
        proof {
            assert(s@ =~= u@.take(i as int));
        }
    }
    s
}

/// The host of `u`.
fn host(u: &Vec<char>) -> (h: Option<Vec<char>>)
    ensures
        h matches Some(h) ==> url_host(u@) == Some(h@),
        h is None ==> url_host(u@) is None,
{
    match scheme_separator(u) {
        None => None,
        Some(p) => {
            let n = u.len();
            assert(p + 3 <= n);
            let end = stop(u, p + 3, false);
            Some(copy_range(u, p + 3, end))
        },
    }
}

/// Whether `h` is `s` or a subdomain of it.
fn subdomain(h: &Vec<char>, s: &Vec<char>) -> (b: bool)
    ensures
        b == is_subdomain_of(h@, s@),
{
    if h.len() < s.len() {
        return false;
    }
    let hl = h.len();
    let offset = hl - s.len();
    let mut i: usize = 0;
    while i < s.len()
        invariant
            offset == h@.len() - s@.len(),
            s@.len() <= h@.len(),
            hl == h@.len(),
            0 <= i <= s.len(),
            forall|k: int| 0 <= k < i ==> h@[offset + k] == s@[k],
        decreases s.len() - i,
    {
        if h[offset + i] != s[i] {
            proof {
                assert(h@.subrange(offset as int, h@.len() as int)[i as int] == h@[offset + i]);
            }
            return false;
        }
        i = i + 1;
    }
    proof {
        assert(h@.subrange(offset as int, h@.len() as int) =~= s@);
    }
    if offset == 0 {
        proof {
            assert(h@ =~= s@);
        }
        true
    } else {
        h[offset - 1] == '.'
    }
}

/// Whether `url` lies on the host of `seed` or one of its subdomains.
pub fn on_site(url: &str, seed: &str) -> (b: bool)
    ensures
        b == same_site(url@, seed@),
{
    let u = chars_of(url);
    let s = chars_of(seed);
    match (host(&u), host(&s)) {
        (Some(h), Some(sh)) => subdomain(&h, &sh),
        _ => false,
    }
}

/// The ancestors of the path of `url`, deepest first (see `url_ancestors`).
pub fn ancestors(url: &str) -> (list: Vec<String>)
    ensures
        views(list@) == url_ancestors(url@),
{
    let u = chars_of(url);
    let mut list: Vec<String> = Vec::new();
    match scheme_separator(&u) {
        None => {
            proof {
                assert(views(list@) =~= Seq::<Seq<char>>::empty());
            }
            list
        },
        Some(p) => {
            let n = u.len();
            assert(p + 3 <= n);
            let lo = stop(&u, p + 3, false);
            let hi = stop(&u, 0, true);
            let mut k = hi;
            while k > lo
                invariant
                    u@ == url@,
                    k <= hi <= u@.len(),
                    views(list@) + slash_prefixes(u@, lo as nat, k as nat)
                        == slash_prefixes(u@, lo as nat, hi as nat),
                decreases k,
            {
                let ghost before = views(list@);
                if u[k - 1] == '/' && k < u.len() {
                    let prefix = prefix_string(&u, k);
                    list.push(prefix);
                    proof {
                        assert(views(list@) =~= before.push(u@.take(k as int)));
                        assert(before + slash_prefixes(u@, lo as nat, k as nat) =~= before.push(u@.take(k as int))
                            + slash_prefixes(u@, lo as nat, (k - 1) as nat));
                    }
                } else {
                    proof {
                        assert(slash_prefixes(u@, lo as nat, k as nat) == slash_prefixes(u@, lo as nat, (k - 1) as nat));
                    }
                }
                k = k - 1;
            }
            proof {
                assert(slash_prefixes(u@, lo as nat, k as nat) =~= Seq::<Seq<char>>::empty());
                assert(views(list@) =~= views(list@)
                    + slash_prefixes(u@, lo as nat, k as nat));
            }
            list
        },
    }
}

} // verus!
