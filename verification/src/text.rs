//! Plain text machinery of the scraper: literal substring search, the
//! newline-delimited encoding of a fragment set, ordered deduplication of
//! matching fragments, and the diff that finds the fragments that are new
//! since the previous run.

use vstd::prelude::*;
use vstd::string::StrSliceExecFns;
use vstd::string::StringExecFns;

verus! {

/// `needle` occurs in `hay` starting at position `i`.
pub open spec fn contains_at(hay: Seq<char>, needle: Seq<char>, i: int) -> bool {
    &&& 0 <= i
    &&& i + needle.len() <= hay.len()
    &&& hay.subrange(i, i + needle.len()) == needle
}

/// Literal, case-sensitive substring containment.
pub open spec fn contains_sub(hay: Seq<char>, needle: Seq<char>) -> bool {
    exists|i: int| contains_at(hay, needle, i)
}

/// Character-for-character equality of two string slices.
pub fn str_eq(a: &str, b: &str) -> (r: bool)
    ensures
        r == (a@ == b@),
{
    let alen = a.unicode_len();
    let blen = b.unicode_len();
    if alen != blen {
        return false;
    }
    let mut i: usize = 0;
    while i < alen
        invariant
            alen == a@.len(),
            blen == b@.len(),
            alen == blen,
            0 <= i <= alen,
            forall|j: int| 0 <= j < i ==> a@[j] == b@[j],
        decreases alen - i,
    {
        if a.get_char(i) != b.get_char(i) {
            return false;
        }
        i += 1;
    }
    proof {
        assert(a@ =~= b@);
    }
    true
}

/// `needle` occurs in `hay` at position `i`, checked character by character.
fn matches_at(hay: &str, needle: &str, i: usize) -> (r: bool)
    requires
        hay@.len() <= usize::MAX,
        i + needle@.len() <= hay@.len(),
    ensures
        r == contains_at(hay@, needle@, i as int),
{
    let nlen = needle.unicode_len();
    let mut j: usize = 0;
    while j < nlen
        invariant
            nlen == needle@.len(),
            hay@.len() <= usize::MAX,
            i + nlen <= hay@.len(),
            0 <= j <= nlen,
            forall|k: int| 0 <= k < j ==> hay@[i + k] == needle@[k],
        decreases nlen - j,
    {
        if hay.get_char(i + j) != needle.get_char(j) {
            proof {
                if contains_at(hay@, needle@, i as int) {
                    assert(hay@.subrange(i as int, i + needle@.len())[j as int] == needle@[j as int]);
                }
            }
            return false;
        }
        j += 1;
    }
    proof {
        assert(hay@.subrange(i as int, i + needle@.len()) =~= needle@);
    }
    true
}

/// Literal, case-sensitive substring search: no regular expressions, no case
/// folding.
pub fn contains_substring(hay: &str, needle: &str) -> (r: bool)
    ensures
        r == contains_sub(hay@, needle@),
{
    let hlen = hay.unicode_len();
    let nlen = needle.unicode_len();
    if nlen > hlen {
        return false;
    }
    let last = hlen - nlen;
    let mut i: usize = 0;
    loop
        invariant
            hlen == hay@.len(),
            nlen == needle@.len(),
            nlen <= hlen,
            last == hlen - nlen,
            0 <= i <= last,
            forall|k: int| 0 <= k < i ==> !contains_at(hay@, needle@, k),
        decreases last - i,
    {
        if matches_at(hay, needle, i) {
            return true;
        }
        if i == last {
            proof {
                assert(forall|k: int| k > last ==> !contains_at(hay@, needle@, k));
                assert(forall|k: int| 0 <= k < i ==> !contains_at(hay@, needle@, k));
            }
            return false;
        }
        i += 1;
    }
}

/// The lines of `s`: segments between newline characters.  A trailing
/// newline closes the last line rather than opening an empty one, so
/// the empty text has no lines at all, matching how a cache value is
/// read back.
pub open spec fn split_lines(s: Seq<char>) -> Seq<Seq<char>>
    decreases s.len(),
{
    if s.len() == 0 {
        Seq::empty()
    } else if s[0] == '\n' {
        seq![Seq::<char>::empty()] + split_lines(s.drop_first())
    } else {
        let rest = split_lines(s.drop_first());
        if rest.len() == 0 {
            seq![s]
        } else {
            seq![seq![s[0]] + rest[0]] + rest.drop_first()
        }
    }
}

/// The newline-delimited encoding of a fragment list: every fragment is
/// followed by one newline, so the empty list encodes to the empty text.
pub open spec fn join_lines(frags: Seq<Seq<char>>) -> Seq<char>
    decreases frags.len(),
{
    if frags.len() == 0 {
        Seq::empty()
    } else {
        frags.first() + seq!['\n'] + join_lines(frags.drop_first())
    }
}

/// No fragment of the list contains a newline.  Fragments with embedded
/// newlines do not survive the newline-delimited cache encoding.
pub open spec fn newline_free(frags: Seq<Seq<char>>) -> bool {
    forall|i: int| 0 <= i < frags.len() ==> !frags[i].contains('\n')
}

/// The fragments of `frags` that contain `pat`, in order of first
/// appearance, each kept once.
pub open spec fn matches_of(frags: Seq<Seq<char>>, pat: Seq<char>) -> Seq<Seq<char>>
    decreases frags.len(),
{
    if frags.len() == 0 {
        Seq::empty()
    } else {
        let rest = matches_of(frags.drop_last(), pat);
        if contains_sub(frags.last(), pat) && !rest.contains(frags.last()) {
            rest.push(frags.last())
        } else {
            rest
        }
    }
}

/// The fragments of `cur` that do not occur in `previous`, in order.
pub open spec fn new_of(cur: Seq<Seq<char>>, previous: Seq<Seq<char>>) -> Seq<Seq<char>>
    decreases cur.len(),
{
    if cur.len() == 0 {
        Seq::empty()
    } else {
        let rest = new_of(cur.drop_last(), previous);
        if !previous.contains(cur.last()) {
            rest.push(cur.last())
        } else {
            rest
        }
    }
}

/// Index of the first newline at or after `start`, or the length if there
/// is none.
fn find_newline(s: &str, start: usize) -> (j: usize)
    requires
        start <= s@.len(),
        s@.len() <= usize::MAX,
    ensures
        start <= j <= s@.len(),
        forall|k: int| start <= k < j ==> s@[k] != '\n',
        j < s@.len() ==> s@[j as int] == '\n',
{
    let len = s.unicode_len();
    let mut j: usize = start;
    while j < len
        invariant
            start <= j <= len,
            len == s@.len(),
            forall|k: int| start <= k < j ==> s@[k] != '\n',
        decreases len - j,
    {
        if s.get_char(j) == '\n' {
            return j;
        }
        j += 1;
    }
    j
}

/// Splits a text into its lines, as `split_lines` of its characters.
pub fn split_into_lines(s: &str) -> (r: Vec<String>)
    ensures
        r.deep_view() == split_lines(s@),
{
    let len = s.unicode_len();
    let mut r: Vec<String> = Vec::new();
    let mut start: usize = 0;
    proof {
        assert(s@.subrange(0, len as int) =~= s@);
        assert(r.deep_view() + split_lines(s@) =~= split_lines(s@));
    }
    while start < len
        invariant
            len == s@.len(),
            0 <= start <= len,
            split_lines(s@) == r.deep_view() + split_lines(
                s@.subrange(start as int, len as int),
            ),
        decreases len - start,
    {
        let ghost r0 = r.deep_view();
        let ghost remaining = s@.subrange(start as int, len as int);
        let j = find_newline(s, start);
        let seg = s.substring_char(start, j).to_owned();
        let ghost segv = s@.subrange(start as int, j as int);
        proof {
            assert(!segv.contains('\n')) by {
                if segv.contains('\n') {
                    let k = choose|k: int| 0 <= k < segv.len() && segv[k] == '\n';
                    assert(s@[start + k] == '\n');
                }
            }
        }
        if j < len {
            let ghost tail = s@.subrange(j + 1, len as int);
            r.push(seg);
            start = j + 1;
            proof {
                assert(remaining =~= segv + seq!['\n'] + tail);
                lemma_split_line_concat(segv, tail);
                assert(r.deep_view() =~= r0.push(segv));
                assert(r.deep_view() + split_lines(tail) =~= r0 + split_lines(remaining));
            }
        } else {
            r.push(seg);
            start = len;
            proof {
                assert(remaining =~= segv);
                lemma_split_nl_free(segv);
                assert(r.deep_view() =~= r0.push(segv));
                assert(s@.subrange(len as int, len as int) =~= Seq::<char>::empty());
                assert(split_lines(Seq::<char>::empty()) =~= Seq::<Seq<char>>::empty());
                assert(r.deep_view() + split_lines(s@.subrange(start as int, len as int)) =~= r0
                    + split_lines(remaining));
            }
        }
    }
    proof {
        assert(s@.subrange(start as int, len as int) =~= Seq::<char>::empty());
        assert(split_lines(Seq::<char>::empty()) =~= Seq::<Seq<char>>::empty());
        assert(r.deep_view() + Seq::<Seq<char>>::empty() =~= r.deep_view());
    }
    r
}

/// Joins fragments into the newline-delimited cache encoding, as
/// `join_lines` of their characters.
pub fn join_with_newlines(frags: &Vec<String>) -> (r: String)
    ensures
        r@ == join_lines(frags.deep_view()),
{
    let mut r = String::new();
    let mut i: usize = 0;
    proof {
        assert(frags.deep_view().subrange(0, 0) =~= Seq::<Seq<char>>::empty());
        assert(join_lines(Seq::<Seq<char>>::empty()) =~= Seq::<char>::empty());
    }
    while i < frags.len()
        invariant
            0 <= i <= frags@.len(),
            r@ == join_lines(frags.deep_view().subrange(0, i as int)),
        decreases frags@.len() - i,
    {
        let ghost prefix = frags.deep_view().subrange(0, i as int);
        r.append(frags[i].as_str());
        r.append("\n");
        proof {
            reveal_strlit("\n");
            assert("\n"@ =~= seq!['\n']);
            let fv = frags.deep_view()[i as int];
            assert(frags.deep_view().subrange(0, i + 1) =~= prefix.push(fv));
            lemma_join_push(prefix, fv);
            assert(r@ =~= join_lines(prefix.push(fv)));
        }
        i += 1;
    }
    proof {
        assert(frags.deep_view().subrange(0, frags@.len() as int) =~= frags.deep_view());
    }
    r
}

/// Whether some element of `v` has exactly the characters of `needle`.
pub fn vec_contains_str(v: &Vec<String>, needle: &str) -> (r: bool)
    ensures
        r == v.deep_view().contains(needle@),
{
    let mut i: usize = 0;
    while i < v.len()
        invariant
            0 <= i <= v@.len(),
            forall|j: int| 0 <= j < i ==> v.deep_view()[j] != needle@,
        decreases v@.len() - i,
    {
        if str_eq(v[i].as_str(), needle) {
            assert(v.deep_view()[i as int] == needle@);
            return true;
        }
        i += 1;
    }
    false
}

/// The fragments containing `pat`, deduplicated, in order of first
/// appearance, as `matches_of` of their characters.
pub fn matching_fragments(frags: &Vec<String>, pat: &str) -> (r: Vec<String>)
    ensures
        r.deep_view() == matches_of(frags.deep_view(), pat@),
{
    let mut r: Vec<String> = Vec::new();
    let mut i: usize = 0;
    proof {
        assert(frags.deep_view().subrange(0, 0) =~= Seq::<Seq<char>>::empty());
        assert(matches_of(Seq::<Seq<char>>::empty(), pat@) =~= Seq::<Seq<char>>::empty());
    }
    while i < frags.len()
        invariant
            0 <= i <= frags@.len(),
            r.deep_view() == matches_of(frags.deep_view().subrange(0, i as int), pat@),
        decreases frags@.len() - i,
    {
        let ghost r0 = r.deep_view();
        let ghost prefix = frags.deep_view().subrange(0, i as int);
        let ghost fv = frags.deep_view()[i as int];
        let hit = contains_substring(frags[i].as_str(), pat);
        let seen = vec_contains_str(&r, frags[i].as_str());
        if hit && !seen {
            let copy = frags[i].clone();
            r.push(copy);
        }
        proof {
            let ext = frags.deep_view().subrange(0, i + 1);
            assert(ext.drop_last() =~= prefix);
            assert(ext.last() == fv);
            if hit && !seen {
                assert(r.deep_view() =~= r0.push(fv));
            }
        }
        i += 1;
    }
    proof {
        assert(frags.deep_view().subrange(0, frags@.len() as int) =~= frags.deep_view());
    }
    r
}

/// The fragments of `cur` that are absent from `previous`, in order, as
/// `new_of` of their characters.
pub fn fresh_fragments(cur: &Vec<String>, previous: &Vec<String>) -> (r: Vec<String>)
    ensures
        r.deep_view() == new_of(cur.deep_view(), previous.deep_view()),
{
    let mut r: Vec<String> = Vec::new();
    let mut i: usize = 0;
    proof {
        assert(cur.deep_view().subrange(0, 0) =~= Seq::<Seq<char>>::empty());
        assert(new_of(Seq::<Seq<char>>::empty(), previous.deep_view())
            =~= Seq::<Seq<char>>::empty());
    }
    while i < cur.len()
        invariant
            0 <= i <= cur@.len(),
            r.deep_view() == new_of(cur.deep_view().subrange(0, i as int), previous.deep_view()),
        decreases cur@.len() - i,
    {
        let ghost r0 = r.deep_view();
        let ghost prefix = cur.deep_view().subrange(0, i as int);
        let ghost fv = cur.deep_view()[i as int];
        let seen = vec_contains_str(previous, cur[i].as_str());
        if !seen {
            let copy = cur[i].clone();
            r.push(copy);
        }
        proof {
            let ext = cur.deep_view().subrange(0, i + 1);
            assert(ext.drop_last() =~= prefix);
            assert(ext.last() == fv);
            if !seen {
                assert(r.deep_view() =~= r0.push(fv));
            }
        }
        i += 1;
    }
    proof {
        assert(cur.deep_view().subrange(0, cur@.len() as int) =~= cur.deep_view());
    }
    r
}

/// The character for one decimal digit.
pub open spec fn digit_char(d: nat) -> char {
    if d == 0 {
        '0'
    } else if d == 1 {
        '1'
    } else if d == 2 {
        '2'
    } else if d == 3 {
        '3'
    } else if d == 4 {
        '4'
    } else if d == 5 {
        '5'
    } else if d == 6 {
        '6'
    } else if d == 7 {
        '7'
    } else if d == 8 {
        '8'
    } else {
        '9'
    }
}

/// The usual decimal rendering of `n`, most significant digit first, with
/// no leading zeroes except for `0` itself.
pub open spec fn dec_str(n: nat) -> Seq<char>
    decreases n,
{
    if n < 10 {
        seq![digit_char(n)]
    } else {
        dec_str(n / 10).push(digit_char(n % 10))
    }
}

/// The one-character string for one decimal digit.
fn digit_str(d: u64) -> (r: &'static str)
    requires
        d < 10,
    ensures
        r@ == seq![digit_char(d as nat)],
{
    if d == 0 {
        proof {
            reveal_strlit("0");
            assert("0"@ =~= seq![digit_char(0)]);
        }
        "0"
    } else if d == 1 {
        proof {
            reveal_strlit("1");
            assert("1"@ =~= seq![digit_char(1)]);
        }
        "1"
    } else if d == 2 {
        proof {
            reveal_strlit("2");
            assert("2"@ =~= seq![digit_char(2)]);
        }
        "2"
    } else if d == 3 {
        proof {
            reveal_strlit("3");
            assert("3"@ =~= seq![digit_char(3)]);
        }
        "3"
    } else if d == 4 {
        proof {
            reveal_strlit("4");
            assert("4"@ =~= seq![digit_char(4)]);
        }
        "4"
    } else if d == 5 {
        proof {
            reveal_strlit("5");
            assert("5"@ =~= seq![digit_char(5)]);
        }
        "5"
    } else if d == 6 {
        proof {
            reveal_strlit("6");
            assert("6"@ =~= seq![digit_char(6)]);
        }
        "6"
    } else if d == 7 {
        proof {
            reveal_strlit("7");
            assert("7"@ =~= seq![digit_char(7)]);
        }
        "7"
    } else if d == 8 {
        proof {
            reveal_strlit("8");
            assert("8"@ =~= seq![digit_char(8)]);
        }
        "8"
    } else {
        proof {
            reveal_strlit("9");
            assert("9"@ =~= seq![digit_char(9)]);
        }
        "9"
    }
}

/// Renders `n` in decimal, as `dec_str`.
pub fn u64_to_dec(n: u64) -> (r: String)
    ensures
        r@ == dec_str(n as nat),
    decreases n,
{
    if n < 10 {
        let d = digit_str(n);
        d.to_owned()
    } else {
        let mut s = u64_to_dec(n / 10);
        s.append(digit_str(n % 10));
        proof {
            assert(dec_str((n / 10) as nat) + seq![digit_char((n % 10) as nat)] =~= dec_str(
                (n / 10) as nat,
            ).push(digit_char((n % 10) as nat)));
        }
        s
    }
}

/// Splitting a newline-free, non-empty text yields that text as its one line.
proof fn lemma_split_nl_free(a: Seq<char>)
    requires
        !a.contains('\n'),
        a.len() > 0,
    ensures
        split_lines(a) == seq![a],
    decreases a.len(),
{
    assert(a[0] != '\n');
    if a.len() == 1 {
        assert(a.drop_first().len() == 0);
        assert(split_lines(a.drop_first()) =~= Seq::<Seq<char>>::empty());
        assert(split_lines(a) =~= seq![a]);
    } else {
        let a1 = a.drop_first();
        assert(!a1.contains('\n')) by {
            if a1.contains('\n') {
                let j = choose|j: int| 0 <= j < a1.len() && a1[j] == '\n';
                assert(a[j + 1] == '\n');
            }
        }
        lemma_split_nl_free(a1);
        assert(seq![a[0]] + a1 =~= a);
        assert(seq![a1].drop_first() =~= Seq::<Seq<char>>::empty());
        assert(split_lines(a) =~= seq![a]);
    }
}

/// Splitting `a` + newline + `t` peels off `a` as the first line, when `a`
/// itself is newline-free.
proof fn lemma_split_line_concat(a: Seq<char>, t: Seq<char>)
    requires
        !a.contains('\n'),
    ensures
        split_lines(a + seq!['\n'] + t) == seq![a] + split_lines(t),
    decreases a.len(),
{
    let s = a + seq!['\n'] + t;
    if a.len() == 0 {
        assert(s =~= seq!['\n'] + t);
        assert(s[0] == '\n');
        assert(s.drop_first() =~= t);
        assert(a =~= Seq::<char>::empty());
        assert(split_lines(s) =~= seq![a] + split_lines(t));
    } else {
        assert(s[0] == a[0]);
        assert(a[0] != '\n');
        let a1 = a.drop_first();
        assert(!a1.contains('\n')) by {
            if a1.contains('\n') {
                let j = choose|j: int| 0 <= j < a1.len() && a1[j] == '\n';
                assert(a[j + 1] == '\n');
            }
        }
        lemma_split_line_concat(a1, t);
        assert(s.drop_first() =~= a1 + seq!['\n'] + t);
        let rest = split_lines(s.drop_first());
        assert(rest == seq![a1] + split_lines(t));
        assert(rest.len() > 0);
        assert(rest[0] == a1);
        assert(seq![a[0]] + rest[0] =~= a);
        assert(rest.drop_first() =~= split_lines(t));
        assert(split_lines(s) =~= seq![a] + split_lines(t));
    }
}

/// Round trip of the cache encoding: a newline-free fragment list is
/// recovered exactly by splitting its newline-joined form.
pub proof fn lemma_split_join(frags: Seq<Seq<char>>)
    requires
        newline_free(frags),
    ensures
        split_lines(join_lines(frags)) == frags,
    decreases frags.len(),
{
    if frags.len() == 0 {
        assert(join_lines(frags) =~= Seq::<char>::empty());
        assert(split_lines(join_lines(frags)) =~= frags);
    } else {
        let f0 = frags.first();
        let rest = frags.drop_first();
        assert(!f0.contains('\n'));
        assert(newline_free(rest)) by {
            assert(forall|i: int| 0 <= i < rest.len() ==> rest[i] == frags[i + 1]);
        }
        lemma_split_join(rest);
        lemma_split_line_concat(f0, join_lines(rest));
        assert(seq![f0] + rest =~= frags);
    }
}

/// Joining after a push appends the fragment and one newline.
proof fn lemma_join_push(frags: Seq<Seq<char>>, x: Seq<char>)
    ensures
        join_lines(frags.push(x)) == join_lines(frags) + x + seq!['\n'],
    decreases frags.len(),
{
    if frags.len() == 0 {
        assert(frags.push(x).drop_first() =~= Seq::<Seq<char>>::empty());
        assert(frags.push(x).first() == x);
        assert(join_lines(Seq::<Seq<char>>::empty()) =~= Seq::<char>::empty());
        assert(join_lines(frags) =~= Seq::<char>::empty());
        assert(join_lines(frags.push(x)) =~= join_lines(frags) + x + seq!['\n']);
    } else {
        assert(frags.push(x).drop_first() =~= frags.drop_first().push(x));
        lemma_join_push(frags.drop_first(), x);
        assert(join_lines(frags.push(x)) =~= join_lines(frags) + x + seq!['\n']);
    }
}

/// With nothing seen previously, everything current is reported: a cache
/// read that fell open re-emits every current match as new.
pub proof fn lemma_new_of_empty(cur: Seq<Seq<char>>)
    ensures
        new_of(cur, Seq::<Seq<char>>::empty()) == cur,
    decreases cur.len(),
{
    if cur.len() == 0 {
        assert(new_of(cur, Seq::<Seq<char>>::empty()) =~= cur);
    } else {
        lemma_new_of_empty(cur.drop_last());
        assert(!Seq::<Seq<char>>::empty().contains(cur.last()));
        assert(new_of(cur, Seq::<Seq<char>>::empty()) =~= cur);
    }
}

/// Fragments that were all seen previously are never reported.
pub proof fn lemma_new_of_all_old(cur: Seq<Seq<char>>, previous: Seq<Seq<char>>)
    requires
        forall|i: int| 0 <= i < cur.len() ==> previous.contains(cur[i]),
    ensures
        new_of(cur, previous) == Seq::<Seq<char>>::empty(),
    decreases cur.len(),
{
    if cur.len() > 0 {
        let prefix = cur.drop_last();
        assert(forall|i: int| 0 <= i < prefix.len() ==> prefix[i] == cur[i]);
        lemma_new_of_all_old(prefix, previous);
        assert(previous.contains(cur.last()));
    }
}

/// The matching fragments form a deduplicated subset of the page's
/// fragments: each one contains the pattern, occurs among the fragments,
/// and occurs only once.
pub proof fn lemma_matches_distinct(frags: Seq<Seq<char>>, pat: Seq<char>)
    ensures
        forall|i: int|
            0 <= i < matches_of(frags, pat).len() ==> contains_sub(
                #[trigger] matches_of(frags, pat)[i],
                pat,
            ) && frags.contains(matches_of(frags, pat)[i]),
        forall|i: int, j: int|
            0 <= i < j < matches_of(frags, pat).len() ==> matches_of(frags, pat)[i] != matches_of(
                frags,
                pat,
            )[j],
    decreases frags.len(),
{
    if frags.len() > 0 {
        let prefix = frags.drop_last();
        lemma_matches_distinct(prefix, pat);
        let rest = matches_of(prefix, pat);
        assert(forall|k: int| 0 <= k < prefix.len() ==> prefix[k] == frags[k]);
        assert(forall|i: int|
            0 <= i < rest.len() && prefix.contains(#[trigger] rest[i]) ==> frags.contains(
                rest[i],
            ));
        if contains_sub(frags.last(), pat) && !rest.contains(frags.last()) {
            assert(frags.contains(frags.last())) by {
                assert(frags[frags.len() - 1] == frags.last());
            }
            assert(forall|i: int, j: int|
                0 <= i < j < rest.push(frags.last()).len() ==> rest.push(frags.last())[i]
                    != rest.push(frags.last())[j]);
        }
    }
}

/// The cache value invariant: the value written for a page, split on
/// newline, is a deduplicated set — no fragment repeats within one value.
/// Holds for matches without embedded newlines.
pub proof fn lemma_cache_value_dedup(frags: Seq<Seq<char>>, pat: Seq<char>)
    requires
        newline_free(matches_of(frags, pat)),
    ensures
        ({
            let lines = split_lines(join_lines(matches_of(frags, pat)));
            forall|i: int, j: int| 0 <= i < j < lines.len() ==> lines[i] != lines[j]
        }),
{
    lemma_split_join(matches_of(frags, pat));
    lemma_matches_distinct(frags, pat);
}

/// A run over unchanged content is a no-op: diffing the matching
/// fragments against the cache value written by the previous run reports
/// nothing.  Holds for matches without embedded newlines; a fragment with
/// one does not survive the newline-delimited cache encoding.
pub proof fn lemma_no_op_run(frags: Seq<Seq<char>>, pat: Seq<char>)
    requires
        newline_free(matches_of(frags, pat)),
    ensures
        new_of(matches_of(frags, pat), split_lines(join_lines(matches_of(frags, pat))))
            == Seq::<Seq<char>>::empty(),
{
    let m = matches_of(frags, pat);
    lemma_split_join(m);
    assert(forall|i: int| 0 <= i < m.len() ==> m.contains(m[i]));
    lemma_new_of_all_old(m, m);
}

/// A fragment appearing beside an already-cached one is reported alone:
/// with `a` cached, content matching `a` and `b` reports exactly `b`.
pub proof fn lemma_new_fragment_detected(a: Seq<char>, b: Seq<char>)
    requires
        a != b,
        !a.contains('\n'),
    ensures
        new_of(seq![a, b], split_lines(join_lines(seq![a]))) == seq![b],
{
    lemma_split_join(seq![a]);
    let cur = seq![a, b];
    assert(cur.drop_last() =~= seq![a]);
    assert(seq![a].drop_last() =~= Seq::<Seq<char>>::empty());
    assert(seq![a].contains(a));
    assert(!seq![a].contains(b));
    assert(new_of(Seq::<Seq<char>>::empty(), seq![a]) =~= Seq::<Seq<char>>::empty());
    assert(seq![a].last() == a);
    assert(new_of(seq![a], seq![a]) =~= Seq::<Seq<char>>::empty());
    assert(new_of(cur, seq![a]) =~= seq![b]);
}

/// Removal is silent: with `a` and `b` cached and only `a` still present,
/// nothing is reported.
pub proof fn lemma_removal_is_silent(a: Seq<char>, b: Seq<char>)
    requires
        !a.contains('\n'),
        !b.contains('\n'),
    ensures
        new_of(seq![a], split_lines(join_lines(seq![a, b]))) == Seq::<Seq<char>>::empty(),
{
    lemma_split_join(seq![a, b]);
    assert(seq![a, b].contains(a)) by {
        assert(seq![a, b][0] == a);
    }
    assert(seq![a].drop_last() =~= Seq::<Seq<char>>::empty());
    assert(new_of(Seq::<Seq<char>>::empty(), seq![a, b]) =~= Seq::<Seq<char>>::empty());
    assert(seq![a].last() == a);
    assert(new_of(seq![a], seq![a, b]) =~= Seq::<Seq<char>>::empty());
}

} // verus!
