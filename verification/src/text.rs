//! Character-level helpers shared by the protocol layers.
//!
//! Text is handled as a sequence of `char`s: a `&str` is read into a
//! `Vec<char>` once, worked on by index, and turned back into a `String`.

use vstd::prelude::*;

verus! {

broadcast use vstd::string::group_string_axioms;

/// The characters of each vector, in order.
pub open spec fn views(v: Seq<Vec<char>>) -> Seq<Seq<char>> {
    v.map_values(|x: Vec<char>| x@)
}

/// The characters of each string, in order.
pub open spec fn string_views(v: Seq<String>) -> Seq<Seq<char>> {
    v.map_values(|s: String| s@)
}

/// The text of each `(&str, &str)` pair.
pub open spec fn str_pairs(ps: Seq<(&str, &str)>) -> Seq<(Seq<char>, Seq<char>)> {
    ps.map_values(|p: (&str, &str)| (p.0@, p.1@))
}

/// The length of `s` in UTF-8 bytes, as `str::len` reports it.
pub open spec fn byte_len(s: Seq<char>) -> nat {
    (vstd::utf8::encode_utf8(s).len() as usize) as nat
}

/// `String::push`: append one character.
#[verifier::external_body]
fn push_char(s: &mut String, c: char)
    ensures
        final(s)@ == old(s)@.push(c),
{
    s.push(c);
}

/// The characters of a string slice, in order.
pub fn chars_of(s: &str) -> (res: Vec<char>)
    ensures
        res@ == s@,
{
    let mut out: Vec<char> = Vec::new();
    for c in it: s.chars()
        invariant
            it.seq() == s@,
            out@ == it.seq().take(it.index() as int),
    {
        out.push(c);
    }
    out
}

/// A `String` holding exactly the given characters.
pub fn string_of(v: &Vec<char>) -> (res: String)
    ensures
        res@ == v@,
{
    let mut s = String::new();
    let mut i: usize = 0;
    while i < v.len()
        invariant
            i <= v.len(),
            s@ == v@.take(i as int),
        decreases v.len() - i,
    {
        push_char(&mut s, v[i]);
        i += 1;
        assert(v@.take(i as int) =~= v@.take(i - 1).push(v@[i - 1]));
    }
    assert(v@.take(v.len() as int) =~= v@);
    s
}

/// Append the characters of `s` to `v`.
pub fn push_str(v: &mut Vec<char>, s: &str)
    ensures
        final(v)@ == old(v)@ + s@,
{
    let mut cs = chars_of(s);
    v.append(&mut cs);
}

/// Append the characters of `s` to `v`.
pub fn push_chars(v: &mut Vec<char>, s: &Vec<char>)
    ensures
        final(v)@ == old(v)@ + s@,
{
    let mut i: usize = 0;
    while i < s.len()
        invariant
            i <= s.len(),
            v@ == old(v)@ + s@.take(i as int),
        decreases s.len() - i,
    {
        v.push(s[i]);
        i += 1;
        assert(s@.take(i as int) =~= s@.take(i - 1).push(s@[i - 1]));
    }
    assert(s@.take(s.len() as int) =~= s@);
}

/// The characters `s[from..to]`.
pub fn slice(s: &Vec<char>, from: usize, to: usize) -> (res: Vec<char>)
    requires
        from <= to <= s.len(),
    ensures
        res@ == s@.subrange(from as int, to as int),
{
    let mut out: Vec<char> = Vec::new();
    let mut i = from;
    while i < to
        invariant
            from <= i <= to <= s.len(),
            out@ == s@.subrange(from as int, i as int),
        decreases to - i,
    {
        out.push(s[i]);
        i += 1;
        assert(s@.subrange(from as int, i as int) =~= s@.subrange(from as int, i - 1).push(s@[i - 1]));
    }
    out
}

/// Whether two character vectors are equal.
pub fn same(a: &Vec<char>, b: &Vec<char>) -> (res: bool)
    ensures
        res == (a@ == b@),
{
    if a.len() != b.len() {
        return false;
    }
    let mut i: usize = 0;
    while i < a.len()
        invariant
            a.len() == b.len(),
            i <= a.len(),
            forall|k: int| 0 <= k < i ==> a@[k] == b@[k],
        decreases a.len() - i,
    {
        if a[i] != b[i] {
            return false;
        }
        i += 1;
    }
    assert(a@ =~= b@);
    true
}

/// Whether `s` equals the string slice `t`.
pub fn same_str(s: &Vec<char>, t: &str) -> (res: bool)
    ensures
        res == (s@ == t@),
{
    let tv = chars_of(t);
    same(s, &tv)
}

/// Whether `s` begins with `p`.
pub fn starts_with(s: &Vec<char>, p: &Vec<char>) -> (res: bool)
    ensures
        res == (p@.len() <= s@.len() && s@.take(p@.len() as int) == p@),
{
    if p.len() > s.len() {
        return false;
    }
    let mut i: usize = 0;
    while i < p.len()
        invariant
            p.len() <= s.len(),
            i <= p.len(),
            forall|k: int| 0 <= k < i ==> s@[k] == p@[k],
        decreases p.len() - i,
    {
        if s[i] != p[i] {
            assert(s@.take(p@.len() as int)[i as int] != p@[i as int]);
            return false;
        }
        i += 1;
    }
    assert(s@.take(p@.len() as int) =~= p@);
    true
}

/// Whether `s` begins with the string slice `p`.
pub fn starts_with_str(s: &Vec<char>, p: &str) -> (res: bool)
    ensures
        res == (p@.len() <= s@.len() && s@.take(p@.len() as int) == p@),
{
    let pv = chars_of(p);
    starts_with(s, &pv)
}

/// Whether `s` ends with `p`.
pub fn ends_with(s: &Vec<char>, p: &Vec<char>) -> (res: bool)
    ensures
        res == (p@.len() <= s@.len() && s@.skip(s@.len() - p@.len()) == p@),
{
    if p.len() > s.len() {
        return false;
    }
    let off = s.len() - p.len();
    let mut i: usize = 0;
    while i < p.len()
        invariant
            p.len() <= s.len(),
            off == s.len() - p.len(),
            i <= p.len(),
            forall|k: int| 0 <= k < i ==> s@[off + k] == p@[k],
        decreases p.len() - i,
    {
        if s[off + i] != p[i] {
            assert(s@.skip(s@.len() - p@.len())[i as int] != p@[i as int]);
            return false;
        }
        i += 1;
    }
    assert(s@.skip(s@.len() - p@.len()) =~= p@);
    true
}

/// Unicode `White_Space`, the set `char::is_whitespace` tests for.
pub open spec fn is_ws(c: char) -> bool {
    let u = c as u32;
    ||| 0x09 <= u <= 0x0D
    ||| u == 0x20
    ||| u == 0x85
    ||| u == 0xA0
    ||| u == 0x1680
    ||| 0x2000 <= u <= 0x200A
    ||| u == 0x2028
    ||| u == 0x2029
    ||| u == 0x202F
    ||| u == 0x205F
    ||| u == 0x3000
}

/// `char::is_whitespace`.
pub fn is_whitespace(c: char) -> (res: bool)
    ensures
        res == is_ws(c),
{
    let u = c as u32;
    (0x09 <= u && u <= 0x0D) || u == 0x20 || u == 0x85 || u == 0xA0 || u == 0x1680 || (0x2000
        <= u && u <= 0x200A) || u == 0x2028 || u == 0x2029 || u == 0x202F || u == 0x205F || u
        == 0x3000
}

/// Index of the first character at or after `i` that is not whitespace.
pub open spec fn skip_ws(s: Seq<char>, i: int) -> int
    decreases s.len() - i,
{
    if 0 <= i < s.len() && is_ws(s[i]) {
        skip_ws(s, i + 1)
    } else {
        i
    }
}

/// End of `s[..j]` once trailing whitespace is dropped.
pub open spec fn back_ws(s: Seq<char>, j: int) -> int
    decreases j,
{
    if 0 < j <= s.len() && is_ws(s[j - 1]) {
        back_ws(s, j - 1)
    } else {
        j
    }
}

/// `str::trim_start`.
pub open spec fn trim_start(s: Seq<char>) -> Seq<char> {
    s.skip(skip_ws(s, 0))
}

/// `str::trim_end`.
pub open spec fn trim_end(s: Seq<char>) -> Seq<char> {
    s.take(back_ws(s, s.len() as int))
}

/// `str::trim`: leading and trailing whitespace removed.
pub open spec fn trim(s: Seq<char>) -> Seq<char> {
    trim_start(trim_end(s))
}

/// Text that starts and ends with something other than whitespace is its
/// own trim.
pub proof fn lemma_trim_unchanged(s: Seq<char>)
    requires
        s.len() > 0,
        !is_ws(s[0]),
        !is_ws(s.last()),
    ensures
        trim(s) == s,
{
    assert(back_ws(s, s.len() as int) == s.len());
    assert(s.take(s.len() as int) =~= s);
    assert(skip_ws(s, 0) == 0);
    assert(s.skip(0) =~= s);
}


proof fn lemma_skip_ws_bounds(s: Seq<char>, i: int)
    requires
        0 <= i <= s.len(),
    ensures
        i <= skip_ws(s, i) <= s.len(),
    decreases s.len() - i,
{
    if i < s.len() && is_ws(s[i]) {
        lemma_skip_ws_bounds(s, i + 1);
    }
}

proof fn lemma_back_ws_bounds(s: Seq<char>, j: int)
    requires
        0 <= j <= s.len(),
    ensures
        0 <= back_ws(s, j) <= j,
    decreases j,
{
    if 0 < j && is_ws(s[j - 1]) {
        lemma_back_ws_bounds(s, j - 1);
    }
}

/// `str::trim` on characters.
pub fn trim_chars(s: &Vec<char>) -> (res: Vec<char>)
    ensures
        res@ == trim(s@),
{
    let mut j = s.len();
    while j > 0 && is_whitespace(s[j - 1])
        invariant
            j <= s.len(),
            back_ws(s@, s@.len() as int) == back_ws(s@, j as int),
        decreases j,
    {
        j -= 1;
    }
    let ghost t = s@.take(j as int);
    assert(back_ws(s@, s@.len() as int) == j);
    let mut i: usize = 0;
    while i < j && is_whitespace(s[i])
        invariant
            i <= j <= s.len(),
            t == s@.take(j as int),
            skip_ws(t, 0) == skip_ws(t, i as int),
        decreases j - i,
    {
        i += 1;
    }
    slice(s, i, j)
}

/// Index of the first `c` in `s` at or after `i`.
pub open spec fn find_char(s: Seq<char>, c: char, i: int) -> Option<int>
    decreases s.len() - i,
{
    if i < 0 || i >= s.len() {
        None
    } else if s[i] == c {
        Some(i)
    } else {
        find_char(s, c, i + 1)
    }
}

pub proof fn lemma_find_char(s: Seq<char>, c: char, i: int)
    requires
        0 <= i,
    ensures
        find_char(s, c, i) matches Some(k) ==> i <= k < s.len() && s[k] == c && forall|m: int|
            i <= m < k ==> s[m] != c,
        find_char(s, c, i) is None ==> forall|m: int| i <= m < s.len() ==> s[m] != c,
    decreases s.len() - i,
{
    if i < s.len() && s[i] != c {
        lemma_find_char(s, c, i + 1);
    }
}

/// First index of `c` in `s` at or after `from`.
pub fn position(s: &Vec<char>, c: char, from: usize) -> (res: Option<usize>)
    ensures
        match res {
            Some(k) => find_char(s@, c, from as int) == Some(k as int),
            None => find_char(s@, c, from as int) is None,
        },
{
    let mut i = from;
    while i < s.len()
        invariant
            from <= i,
            find_char(s@, c, from as int) == find_char(s@, c, i as int),
        decreases s.len() - i,
    {
        if s[i] == c {
            return Some(i);
        }
        i += 1;
    }
    None
}

/// Whether `p` occurs in `s` at index `i`.
pub open spec fn occurs_at(s: Seq<char>, p: Seq<char>, i: int) -> bool {
    0 <= i && i + p.len() <= s.len() && s.subrange(i, i + p.len()) == p
}

/// Index of the first occurrence of `p` in `s` at or after `i`.
pub open spec fn find_seq(s: Seq<char>, p: Seq<char>, i: int) -> Option<int>
    decreases s.len() + 1 - i,
{
    if i < 0 || i + p.len() > s.len() {
        None
    } else if occurs_at(s, p, i) {
        Some(i)
    } else {
        find_seq(s, p, i + 1)
    }
}

/// Whether `p` occurs at index `i` of `s`.
pub fn matches_at(s: &Vec<char>, p: &Vec<char>, i: usize) -> (res: bool)
    ensures
        res == occurs_at(s@, p@, i as int),
{
    if i > s.len() || p.len() > s.len() - i {
        return false;
    }
    let mut k: usize = 0;
    while k < p.len()
        invariant
            i + p.len() <= s.len(),
            k <= p.len(),
            forall|m: int| 0 <= m < k ==> s@[i + m] == p@[m],
        decreases p.len() - k,
    {
        if s[i + k] != p[k] {
            assert(s@.subrange(i as int, i + p@.len())[k as int] != p@[k as int]);
            return false;
        }
        k += 1;
    }
    assert(s@.subrange(i as int, i + p@.len()) =~= p@);
    true
}

/// First index of `p` in `s` at or after `from`.
pub fn find(s: &Vec<char>, p: &Vec<char>, from: usize) -> (res: Option<usize>)
    ensures
        match res {
            Some(k) => find_seq(s@, p@, from as int) == Some(k as int),
            None => find_seq(s@, p@, from as int) is None,
        },
{
    if p.len() > s.len() {
        return None;
    }
    let last = s.len() - p.len();
    let mut i = from;
    while i <= last
        invariant
            from <= i,
            last == s.len() - p.len(),
            find_seq(s@, p@, from as int) == find_seq(s@, p@, i as int),
        decreases last + 1 - i,
    {
        if matches_at(s, p, i) {
            return Some(i);
        }
        if i == last {
            assert(find_seq(s@, p@, i + 1) is None);
            return None;
        }
        i += 1;
    }
    None
}

/// First index of the string slice `p` in `s` at or after `from`.
pub fn find_str(s: &Vec<char>, p: &str, from: usize) -> (res: Option<usize>)
    ensures
        match res {
            Some(k) => find_seq(s@, p@, from as int) == Some(k as int),
            None => find_seq(s@, p@, from as int) is None,
        },
{
    let pv = chars_of(p);
    find(s, &pv, from)
}

pub proof fn lemma_find_seq(s: Seq<char>, p: Seq<char>, i: int)
    ensures
        find_seq(s, p, i) matches Some(k) ==> occurs_at(s, p, k) && i <= k,
    decreases s.len() + 1 - i,
{
    if i >= 0 && i + p.len() <= s.len() && !occurs_at(s, p, i) {
        lemma_find_seq(s, p, i + 1);
    }
}

/// Index of the last `c` in `s[..j]`.
pub open spec fn rfind_char(s: Seq<char>, c: char, j: int) -> Option<int>
    decreases j,
{
    if j <= 0 || j > s.len() {
        None
    } else if s[j - 1] == c {
        Some(j - 1)
    } else {
        rfind_char(s, c, j - 1)
    }
}

pub proof fn lemma_rfind_char(s: Seq<char>, c: char, j: int)
    requires
        j <= s.len(),
    ensures
        rfind_char(s, c, j) matches Some(k) ==> 0 <= k < j && s[k] == c && forall|m: int|
            k < m < j ==> s[m] != c,
        rfind_char(s, c, j) is None ==> forall|m: int| 0 <= m < j ==> s[m] != c,
    decreases j,
{
    if 0 < j && s[j - 1] != c {
        lemma_rfind_char(s, c, j - 1);
    }
}

/// Index of the last `c` in `s`.
pub fn rposition(s: &Vec<char>, c: char) -> (res: Option<usize>)
    ensures
        match res {
            Some(k) => rfind_char(s@, c, s@.len() as int) == Some(k as int),
            None => rfind_char(s@, c, s@.len() as int) is None,
        },
{
    let mut j = s.len();
    while j > 0
        invariant
            j <= s.len(),
            rfind_char(s@, c, s@.len() as int) == rfind_char(s@, c, j as int),
        decreases j,
    {
        if s[j - 1] == c {
            return Some(j - 1);
        }
        j -= 1;
    }
    None
}

/// The text after the last `c` in `s`; all of `s` when there is none
/// (`str::rsplit(c).next()`).
pub open spec fn after_last(s: Seq<char>, c: char) -> Seq<char> {
    match rfind_char(s, c, s.len() as int) {
        Some(k) => s.skip(k + 1),
        None => s,
    }
}

/// `str::rsplit(c).next()` on characters.
pub fn after_last_chars(s: &Vec<char>, c: char) -> (res: Vec<char>)
    ensures
        res@ == after_last(s@, c),
{
    proof {
        lemma_rfind_char(s@, c, s@.len() as int);
    }
    match rposition(s, c) {
        Some(k) => {
            let n = s.len();
            slice(s, k + 1, n)
        },
        None => slice(s, 0, s.len()),
    }
}

/// Index of the first `a` or `b` in `s` at or after `i`.
pub open spec fn find_either(s: Seq<char>, a: char, b: char, i: int) -> Option<int>
    decreases s.len() - i,
{
    if i < 0 || i >= s.len() {
        None
    } else if s[i] == a || s[i] == b {
        Some(i)
    } else {
        find_either(s, a, b, i + 1)
    }
}

pub proof fn lemma_find_either(s: Seq<char>, a: char, b: char, i: int)
    requires
        0 <= i,
    ensures
        find_either(s, a, b, i) matches Some(k) ==> i <= k < s.len(),
    decreases s.len() - i,
{
    if i < s.len() && s[i] != a && s[i] != b {
        lemma_find_either(s, a, b, i + 1);
    }
}

/// The text of `s` before its first `a` or `b` (all of it when there is none).
pub open spec fn before_either(s: Seq<char>, a: char, b: char) -> Seq<char> {
    match find_either(s, a, b, 0) {
        Some(k) => s.take(k),
        None => s,
    }
}

/// `str::split([a, b]).next()` on characters.
pub fn before_either_chars(s: &Vec<char>, a: char, b: char) -> (res: Vec<char>)
    ensures
        res@ == before_either(s@, a, b),
{
    let mut i: usize = 0;
    while i < s.len()
        invariant
            i <= s.len(),
            find_either(s@, a, b, 0) == find_either(s@, a, b, i as int),
        decreases s.len() - i,
    {
        if s[i] == a || s[i] == b {
            return slice(s, 0, i);
        }
        i += 1;
    }
    slice(s, 0, s.len())
}

/// Whether `p` occurs anywhere in `s`.
pub open spec fn contains_seq(s: Seq<char>, p: Seq<char>) -> bool {
    find_seq(s, p, 0) is Some
}

/// `str::split(c)`, as a fold over the characters: `cur` is the piece being
/// read and `acc` the pieces already closed by a separator.
pub open spec fn split_acc(s: Seq<char>, c: char, i: int, cur: Seq<char>, acc: Seq<Seq<char>>) -> Seq<
    Seq<char>,
>
    decreases s.len() - i,
{
    if i < 0 || i >= s.len() {
        acc.push(cur)
    } else if s[i] == c {
        split_acc(s, c, i + 1, Seq::empty(), acc.push(cur))
    } else {
        split_acc(s, c, i + 1, cur.push(s[i]), acc)
    }
}

/// `str::split(c)`: the pieces between the separators, empty ones included.
pub open spec fn split(s: Seq<char>, c: char) -> Seq<Seq<char>> {
    split_acc(s, c, 0, Seq::empty(), Seq::empty())
}

/// `str::split(c)` on characters.
pub fn split_chars(s: &Vec<char>, c: char) -> (res: Vec<Vec<char>>)
    ensures
        views(res@) == split(s@, c),
{
    let mut acc: Vec<Vec<char>> = Vec::new();
    let mut cur: Vec<char> = Vec::new();
    let mut i: usize = 0;
    assert(views(acc@) =~= Seq::<Seq<char>>::empty());
    assert(cur@ =~= Seq::<char>::empty());
    while i < s.len()
        invariant
            i <= s.len(),
            split(s@, c) == split_acc(s@, c, i as int, cur@, views(acc@)),
        decreases s.len() - i,
    {
        if s[i] == c {
            let ghost before = views(acc@);
            let done = cur;
            acc.push(done);
            assert(views(acc@) =~= before.push(done@));
            cur = Vec::new();
        } else {
            cur.push(s[i]);
        }
        i += 1;
    }
    let ghost before = views(acc@);
    let last = cur;
    acc.push(last);
    assert(views(acc@) =~= before.push(last@));
    acc
}


/// Whether `s` begins with `p`.
pub open spec fn has_prefix(s: Seq<char>, p: Seq<char>) -> bool {
    p.len() <= s.len() && s.take(p.len() as int) == p
}

/// `str::split([a, b])` as a fold: like [`split_acc`] with two separators.
pub open spec fn split2_acc(
    s: Seq<char>,
    a: char,
    b: char,
    i: int,
    cur: Seq<char>,
    acc: Seq<Seq<char>>,
) -> Seq<Seq<char>>
    decreases s.len() - i,
{
    if i < 0 || i >= s.len() {
        acc.push(cur)
    } else if s[i] == a || s[i] == b {
        split2_acc(s, a, b, i + 1, Seq::empty(), acc.push(cur))
    } else {
        split2_acc(s, a, b, i + 1, cur.push(s[i]), acc)
    }
}

/// `str::split([a, b])`: the pieces between separators of either kind.
pub open spec fn split2(s: Seq<char>, a: char, b: char) -> Seq<Seq<char>> {
    split2_acc(s, a, b, 0, Seq::empty(), Seq::empty())
}

/// `str::split([a, b])` on characters.
pub fn split2_chars(s: &Vec<char>, a: char, b: char) -> (res: Vec<Vec<char>>)
    ensures
        views(res@) == split2(s@, a, b),
{
    let mut acc: Vec<Vec<char>> = Vec::new();
    let mut cur: Vec<char> = Vec::new();
    let mut i: usize = 0;
    assert(views(acc@) =~= Seq::<Seq<char>>::empty());
    assert(cur@ =~= Seq::<char>::empty());
    while i < s.len()
        invariant
            i <= s.len(),
            split2(s@, a, b) == split2_acc(s@, a, b, i as int, cur@, views(acc@)),
        decreases s.len() - i,
    {
        if s[i] == a || s[i] == b {
            let ghost before = views(acc@);
            let done = cur;
            acc.push(done);
            assert(views(acc@) =~= before.push(done@));
            cur = Vec::new();
        } else {
            cur.push(s[i]);
        }
        i += 1;
    }
    let ghost before = views(acc@);
    let last = cur;
    acc.push(last);
    assert(views(acc@) =~= before.push(last@));
    acc
}

/// `str::split_whitespace` as a fold: the runs of non-whitespace characters.
pub open spec fn words_acc(s: Seq<char>, i: int, cur: Seq<char>, acc: Seq<Seq<char>>) -> Seq<
    Seq<char>,
>
    decreases s.len() - i,
{
    if i < 0 || i >= s.len() {
        if cur.len() > 0 {
            acc.push(cur)
        } else {
            acc
        }
    } else if is_ws(s[i]) {
        words_acc(
            s,
            i + 1,
            Seq::empty(),
            if cur.len() > 0 {
                acc.push(cur)
            } else {
                acc
            },
        )
    } else {
        words_acc(s, i + 1, cur.push(s[i]), acc)
    }
}

/// `str::split_whitespace`: the maximal runs of non-whitespace characters.
pub open spec fn words(s: Seq<char>) -> Seq<Seq<char>> {
    words_acc(s, 0, Seq::empty(), Seq::empty())
}

/// `str::split_whitespace` on characters.
pub fn split_words(s: &Vec<char>) -> (res: Vec<Vec<char>>)
    ensures
        views(res@) == words(s@),
{
    let mut acc: Vec<Vec<char>> = Vec::new();
    let mut cur: Vec<char> = Vec::new();
    let mut i: usize = 0;
    assert(views(acc@) =~= Seq::<Seq<char>>::empty());
    assert(cur@ =~= Seq::<char>::empty());
    while i < s.len()
        invariant
            i <= s.len(),
            words(s@) == words_acc(s@, i as int, cur@, views(acc@)),
        decreases s.len() - i,
    {
        if is_whitespace(s[i]) {
            if cur.len() > 0 {
                let ghost before = views(acc@);
                let done = cur;
                acc.push(done);
                assert(views(acc@) =~= before.push(done@));
                cur = Vec::new();
            } else {
                assert(cur@ =~= Seq::<char>::empty());
            }
        } else {
            cur.push(s[i]);
        }
        i += 1;
    }
    if cur.len() > 0 {
        let ghost before = views(acc@);
        let last = cur;
        acc.push(last);
        assert(views(acc@) =~= before.push(last@));
    }
    acc
}

/// A line as `str::lines` yields it: without its `\n`, and without a `\r`
/// just before that `\n`.
pub open spec fn line_body(cur: Seq<char>) -> Seq<char> {
    if cur.len() > 0 && cur.last() == '\r' {
        cur.drop_last()
    } else {
        cur
    }
}

/// `str::lines` as a fold.
pub open spec fn lines_acc(s: Seq<char>, i: int, cur: Seq<char>, acc: Seq<Seq<char>>) -> Seq<
    Seq<char>,
>
    decreases s.len() - i,
{
    if i < 0 || i >= s.len() {
        if cur.len() > 0 {
            acc.push(cur)
        } else {
            acc
        }
    } else if s[i] == '\n' {
        lines_acc(s, i + 1, Seq::empty(), acc.push(line_body(cur)))
    } else {
        lines_acc(s, i + 1, cur.push(s[i]), acc)
    }
}

/// Where the reader of `lines` stands after `s[i..]`: the line being read
/// and the lines closed so far (the last line is not closed yet).
pub open spec fn lines_state(s: Seq<char>, i: int, cur: Seq<char>, acc: Seq<Seq<char>>) -> (
    Seq<char>,
    Seq<Seq<char>>,
)
    decreases s.len() - i,
{
    if i < 0 || i >= s.len() {
        (cur, acc)
    } else if s[i] == '\n' {
        lines_state(s, i + 1, Seq::empty(), acc.push(line_body(cur)))
    } else {
        lines_state(s, i + 1, cur.push(s[i]), acc)
    }
}

/// The lines of a reader state once the input ends.
pub open spec fn lines_closed(st: (Seq<char>, Seq<Seq<char>>)) -> Seq<Seq<char>> {
    if st.0.len() > 0 {
        st.1.push(st.0)
    } else {
        st.1
    }
}

pub proof fn lemma_lines_acc_state(s: Seq<char>, i: int, cur: Seq<char>, acc: Seq<Seq<char>>)
    requires
        0 <= i,
    ensures
        lines_acc(s, i, cur, acc) == lines_closed(lines_state(s, i, cur, acc)),
    decreases s.len() - i,
{
    if i < s.len() {
        if s[i] == '\n' {
            lemma_lines_acc_state(s, i + 1, Seq::empty(), acc.push(line_body(cur)));
        } else {
            lemma_lines_acc_state(s, i + 1, cur.push(s[i]), acc);
        }
    }
}

proof fn lemma_lines_state_shift(a: Seq<char>, b: Seq<char>, j: int, cur: Seq<char>, acc: Seq<Seq<char>>)
    requires
        0 <= j <= b.len(),
    ensures
        lines_state(a + b, a.len() + j, cur, acc) == lines_state(b, j, cur, acc),
    decreases b.len() - j,
{
    if j < b.len() {
        assert((a + b)[a.len() + j] == b[j]);
        if b[j] == '\n' {
            lemma_lines_state_shift(a, b, j + 1, Seq::empty(), acc.push(line_body(cur)));
        } else {
            lemma_lines_state_shift(a, b, j + 1, cur.push(b[j]), acc);
        }
    }
}

/// Reading `a + b` is reading `a`, then `b` from where `a` left off.
pub proof fn lemma_lines_state_concat(a: Seq<char>, b: Seq<char>, i: int, cur: Seq<char>, acc: Seq<Seq<char>>)
    requires
        0 <= i <= a.len(),
    ensures
        lines_state(a + b, i, cur, acc) == lines_state(
            b,
            0,
            lines_state(a, i, cur, acc).0,
            lines_state(a, i, cur, acc).1,
        ),
    decreases a.len() - i,
{
    if i < a.len() {
        assert((a + b)[i] == a[i]);
        if a[i] == '\n' {
            lemma_lines_state_concat(a, b, i + 1, Seq::empty(), acc.push(line_body(cur)));
        } else {
            lemma_lines_state_concat(a, b, i + 1, cur.push(a[i]), acc);
        }
    } else {
        lemma_lines_state_shift(a, b, 0, cur, acc);
    }
}

proof fn lemma_lines_state_crlf_line(x: Seq<char>, i: int, acc: Seq<Seq<char>>)
    requires
        0 <= i <= x.len(),
        forall|k: int| 0 <= k < x.len() ==> x[k] != '\n',
    ensures
        lines_state(x + "\r\n"@, i, x.take(i), acc) == (Seq::<char>::empty(), acc.push(x)),
    decreases x.len() - i,
{
    reveal_strlit("\r\n");
    let s = x + "\r\n"@;
    if i < x.len() {
        assert(s[i] == x[i]);
        assert(x.take(i).push(x[i]) =~= x.take(i + 1));
        lemma_lines_state_crlf_line(x, i + 1, acc);
    } else {
        assert(x.take(i) =~= x);
        assert(s[i] == '\r');
        assert(s[i + 1] == '\n');
        assert(line_body(x.push('\r')) =~= x);
        assert(s.len() == i + 2);
        assert(lines_state(s, i + 2, Seq::empty(), acc.push(x)) == (Seq::<char>::empty(), acc.push(x)));
        assert(lines_state(s, i + 1, x.push('\r'), acc) == lines_state(
            s,
            i + 2,
            Seq::empty(),
            acc.push(line_body(x.push('\r'))),
        ));
        assert(lines_state(s, i, x, acc) == lines_state(s, i + 1, x.push('\r'), acc));
    }
}

/// One line ended by `\r\n` closes exactly that line.
pub proof fn lemma_lines_state_line(x: Seq<char>, acc: Seq<Seq<char>>)
    requires
        forall|k: int| 0 <= k < x.len() ==> x[k] != '\n',
    ensures
        lines_state(x + "\r\n"@, 0, Seq::empty(), acc) == (Seq::<char>::empty(), acc.push(x)),
{
    assert(x.take(0) =~= Seq::<char>::empty());
    lemma_lines_state_crlf_line(x, 0, acc);
}


/// `str::lines`: split at `\n` or `\r\n`; a final line ending adds no empty line.
pub open spec fn lines(s: Seq<char>) -> Seq<Seq<char>> {
    lines_acc(s, 0, Seq::empty(), Seq::empty())
}

/// `str::lines` on characters.
pub fn split_lines(s: &Vec<char>) -> (res: Vec<Vec<char>>)
    ensures
        views(res@) == lines(s@),
{
    let mut acc: Vec<Vec<char>> = Vec::new();
    let mut cur: Vec<char> = Vec::new();
    let mut i: usize = 0;
    assert(views(acc@) =~= Seq::<Seq<char>>::empty());
    assert(cur@ =~= Seq::<char>::empty());
    while i < s.len()
        invariant
            i <= s.len(),
            lines(s@) == lines_acc(s@, i as int, cur@, views(acc@)),
        decreases s.len() - i,
    {
        if s[i] == '\n' {
            let ghost before = views(acc@);
            let mut done = cur;
            if done.len() > 0 && done[done.len() - 1] == '\r' {
                done.pop();
            }
            assert(done@ =~= line_body(cur@));
            acc.push(done);
            assert(views(acc@) =~= before.push(done@));
            cur = Vec::new();
        } else {
            cur.push(s[i]);
        }
        i += 1;
    }
    if cur.len() > 0 {
        let ghost before = views(acc@);
        let last = cur;
        acc.push(last);
        assert(views(acc@) =~= before.push(last@));
    }
    acc
}

/// `str::split(p)` for a non-empty pattern, as a fold: `start` is where the
/// current piece began.
pub open spec fn split_seq_acc(s: Seq<char>, p: Seq<char>, i: int, start: int, acc: Seq<Seq<char>>) -> Seq<
    Seq<char>,
>
    decreases s.len() - i,
{
    if i < 0 || i >= s.len() || p.len() == 0 {
        acc.push(s.subrange(start, s.len() as int))
    } else if occurs_at(s, p, i) {
        split_seq_acc(s, p, i + p.len(), i + p.len(), acc.push(s.subrange(start, i)))
    } else {
        split_seq_acc(s, p, i + 1, start, acc)
    }
}

/// `str::split(p)` for a non-empty pattern: the pieces between the
/// left-most non-overlapping occurrences of `p`.
pub open spec fn split_seq(s: Seq<char>, p: Seq<char>) -> Seq<Seq<char>> {
    split_seq_acc(s, p, 0, 0, Seq::empty())
}

/// `find_seq` answers `j` when `p` occurs there and nowhere from `i` before it.
pub proof fn lemma_find_seq_at(s: Seq<char>, p: Seq<char>, i: int, j: int)
    requires
        0 <= i <= j,
        occurs_at(s, p, j),
        forall|k: int| i <= k < j ==> !#[trigger] occurs_at(s, p, k),
    ensures
        find_seq(s, p, i) == Some(j),
    decreases j - i,
{
    if i < j {
        lemma_find_seq_at(s, p, i + 1, j);
    }
}

/// Where `p` does not occur, the splitter just moves on.
pub proof fn lemma_split_seq_skip(
    s: Seq<char>,
    p: Seq<char>,
    i: int,
    j: int,
    start: int,
    acc: Seq<Seq<char>>,
)
    requires
        0 <= i <= j <= s.len(),
        p.len() > 0,
        forall|k: int| i <= k < j ==> !#[trigger] occurs_at(s, p, k),
    ensures
        split_seq_acc(s, p, i, start, acc) == split_seq_acc(s, p, j, start, acc),
    decreases j - i,
{
    if i < j {
        assert(!occurs_at(s, p, i));
        lemma_split_seq_skip(s, p, i + 1, j, start, acc);
    }
}

/// The pieces already closed stay, and at least one more follows.
pub proof fn lemma_split_seq_prefix(s: Seq<char>, p: Seq<char>, i: int, start: int, acc: Seq<Seq<char>>)
    ensures
        split_seq_acc(s, p, i, start, acc).len() >= acc.len() + 1,
        forall|k: int|
            0 <= k < acc.len() ==> #[trigger] split_seq_acc(s, p, i, start, acc)[k] == acc[k],
    decreases s.len() - i,
{
    if i < 0 || i >= s.len() || p.len() == 0 {
    } else if occurs_at(s, p, i) {
        lemma_split_seq_prefix(s, p, i + p.len(), i + p.len(), acc.push(s.subrange(start, i)));
    } else {
        lemma_split_seq_prefix(s, p, i + 1, start, acc);
    }
}

/// `str::split(p)` on characters, for a non-empty pattern.
pub fn split_pattern(s: &Vec<char>, p: &Vec<char>) -> (res: Vec<Vec<char>>)
    requires
        p@.len() > 0,
    ensures
        views(res@) == split_seq(s@, p@),
{
    let mut acc: Vec<Vec<char>> = Vec::new();
    let mut start: usize = 0;
    let mut i: usize = 0;
    assert(views(acc@) =~= Seq::<Seq<char>>::empty());
    while i < s.len()
        invariant
            start <= i <= s.len(),
            p@.len() > 0,
            split_seq(s@, p@) == split_seq_acc(s@, p@, i as int, start as int, views(acc@)),
        decreases s.len() - i,
    {
        if matches_at(s, p, i) {
            let ghost before = views(acc@);
            let piece = slice(s, start, i);
            acc.push(piece);
            assert(views(acc@) =~= before.push(piece@));
            i = i + p.len();
            start = i;
        } else {
            i += 1;
        }
    }
    let ghost before = views(acc@);
    let last = slice(s, start, s.len());
    acc.push(last);
    assert(views(acc@) =~= before.push(last@));
    acc
}

/// `char::to_ascii_lowercase`.
pub open spec fn ascii_lower(c: char) -> char {
    if 65 <= c as u32 <= 90 {
        ((c as u32) + 32) as char
    } else {
        c
    }
}

/// `char::to_ascii_uppercase`.
pub open spec fn ascii_upper(c: char) -> char {
    if 97 <= c as u32 <= 122 {
        ((c as u32) - 32) as char
    } else {
        c
    }
}

/// `str::to_ascii_lowercase`.
pub open spec fn ascii_lower_seq(s: Seq<char>) -> Seq<char> {
    s.map_values(|c: char| ascii_lower(c))
}

/// `str::eq_ignore_ascii_case`.
pub open spec fn eq_ignore_case(a: Seq<char>, b: Seq<char>) -> bool {
    ascii_lower_seq(a) == ascii_lower_seq(b)
}

fn lower_char(c: char) -> (res: char)
    ensures
        res == ascii_lower(c),
{
    let u = c as u32;
    if 65 <= u && u <= 90 {
        ((u + 32) as u8) as char
    } else {
        c
    }
}

/// `str::to_ascii_lowercase` on characters.
pub fn to_ascii_lower(s: &Vec<char>) -> (res: Vec<char>)
    ensures
        res@ == ascii_lower_seq(s@),
{
    let mut out: Vec<char> = Vec::new();
    let mut i: usize = 0;
    while i < s.len()
        invariant
            i <= s.len(),
            out@ == ascii_lower_seq(s@.take(i as int)),
        decreases s.len() - i,
    {
        out.push(lower_char(s[i]));
        i += 1;
        assert(ascii_lower_seq(s@.take(i as int)) =~= ascii_lower_seq(s@.take(i - 1)).push(
            ascii_lower(s@[i - 1]),
        ));
    }
    assert(s@.take(s.len() as int) =~= s@);
    out
}

/// `str::eq_ignore_ascii_case` on characters.
pub fn eq_ignore_ascii_case(a: &Vec<char>, b: &Vec<char>) -> (res: bool)
    ensures
        res == eq_ignore_case(a@, b@),
{
    let la = to_ascii_lower(a);
    let lb = to_ascii_lower(b);
    same(&la, &lb)
}

/// What `char::to_uppercase` yields for `c`, per the Unicode case tables.
pub uninterp spec fn upper_of(c: char) -> Seq<char>;

/// What `str::to_lowercase` yields for `s`, per the Unicode case tables.
pub uninterp spec fn lower_of(s: Seq<char>) -> Seq<char>;

/// Whether every character of `s` is ASCII.
pub open spec fn all_ascii(s: Seq<char>) -> bool {
    forall|i: int| 0 <= i < s.len() ==> (#[trigger] s[i] as u32) < 128
}

/// `char::to_uppercase`, collected. The result is named by [`upper_of`];
/// for an ASCII character it is the ASCII upper case, as the standard library
/// documents. The Unicode tables themselves are not restated.
#[verifier::external_body]
fn char_upper(c: char) -> (res: String)
    ensures
        res@ == upper_of(c),
        (c as u32) < 128 ==> res@ == seq![ascii_upper(c)],
{
    c.to_uppercase().collect()
}

/// `str::to_lowercase`. The result is named by [`lower_of`]; for ASCII text it
/// is the ASCII lower case, as the standard library documents. The Unicode
/// tables (and the final-sigma rule) are not restated.
#[verifier::external_body]
fn str_lower(s: &str) -> (res: String)
    ensures
        res@ == lower_of(s@),
        all_ascii(s@) ==> res@ == ascii_lower_seq(s@),
{
    s.to_lowercase()
}

/// `char::to_uppercase` on a character, as characters.
pub fn upper_chars(c: char) -> (res: Vec<char>)
    ensures
        res@ == upper_of(c),
        (c as u32) < 128 ==> res@ == seq![ascii_upper(c)],
{
    let s = char_upper(c);
    chars_of(s.as_str())
}

/// `str::to_lowercase` on characters.
pub fn lower_chars(s: &Vec<char>) -> (res: Vec<char>)
    ensures
        res@ == lower_of(s@),
        all_ascii(s@) ==> res@ == ascii_lower_seq(s@),
{
    let t = string_of(s);
    let l = str_lower(t.as_str());
    chars_of(l.as_str())
}

/// What `format!("{:?}", s)` writes for a string slice.
pub uninterp spec fn debug_of(s: Seq<char>) -> Seq<char>;

/// Whether every character of `s` is printable ASCII other than `"` and `\`.
pub open spec fn plain_printable(s: Seq<char>) -> bool {
    forall|i: int|
        0 <= i < s.len() ==> {
            let u = #[trigger] s[i] as u32;
            0x20 <= u <= 0x7e && u != 0x22 && u != 0x5c
        }
}

/// `<str as Debug>::fmt`, collected into a `String`. The result is named by
/// [`debug_of`]; the standard library writes the text between double quotes
/// with `char::escape_debug` applied to each character, which leaves printable
/// ASCII other than `"` and `\` as it is. The escapes of other characters are
/// not restated.
#[verifier::external_body]
pub(crate) fn debug_str(s: &str) -> (res: String)
    ensures
        res@ == debug_of(s@),
        plain_printable(s@) ==> res@ == seq!['"'] + s@ + seq!['"'],
{
    format!("{s:?}")
}

/// Strict lexicographic order of character sequences by code point, which
/// is the byte order `str` compares UTF-8 text by.
pub open spec fn seq_less(a: Seq<char>, b: Seq<char>) -> bool
    decreases a.len(),
{
    if a.len() == 0 {
        b.len() > 0
    } else if b.len() == 0 {
        false
    } else if a[0] != b[0] {
        (a[0] as int) < (b[0] as int)
    } else {
        seq_less(a.drop_first(), b.drop_first())
    }
}

pub proof fn lemma_seq_less_irreflexive(a: Seq<char>)
    ensures
        !seq_less(a, a),
    decreases a.len(),
{
    if a.len() > 0 {
        lemma_seq_less_irreflexive(a.drop_first());
    }
}

pub proof fn lemma_seq_less_total(a: Seq<char>, b: Seq<char>)
    ensures
        a == b || seq_less(a, b) || seq_less(b, a),
    decreases a.len(),
{
    if a.len() > 0 && b.len() > 0 && a[0] == b[0] {
        lemma_seq_less_total(a.drop_first(), b.drop_first());
        if a.drop_first() == b.drop_first() {
            assert(a =~= seq![a[0]] + a.drop_first());
            assert(b =~= seq![b[0]] + b.drop_first());
        }
    } else if a.len() > 0 && b.len() > 0 {
        assert((a[0] as int) != (b[0] as int));
    } else if a.len() == 0 && b.len() == 0 {
        assert(a =~= b);
    }
}

pub proof fn lemma_seq_less_transitive(a: Seq<char>, b: Seq<char>, c: Seq<char>)
    requires
        seq_less(a, b),
        seq_less(b, c),
    ensures
        seq_less(a, c),
    decreases a.len(),
{
    if a.len() > 0 && b.len() > 0 && c.len() > 0 && a[0] == b[0] && b[0] == c[0] {
        lemma_seq_less_transitive(a.drop_first(), b.drop_first(), c.drop_first());
    }
}

/// Lexicographic comparison of character vectors: whether `a` sorts before `b`.
pub fn less_chars(a: &Vec<char>, b: &Vec<char>) -> (res: bool)
    ensures
        res == seq_less(a@, b@),
{
    let mut i: usize = 0;
    assert(a@.skip(0) =~= a@);
    assert(b@.skip(0) =~= b@);
    while i < a.len() && i < b.len()
        invariant
            i <= a@.len(),
            i <= b@.len(),
            seq_less(a@, b@) == seq_less(a@.skip(i as int), b@.skip(i as int)),
        decreases a@.len() - i,
    {
        if a[i] != b[i] {
            assert(a@.skip(i as int)[0] == a@[i as int]);
            assert(b@.skip(i as int)[0] == b@[i as int]);
            return a[i] < b[i];
        }
        assert(a@.skip(i as int).drop_first() =~= a@.skip(i + 1));
        assert(b@.skip(i as int).drop_first() =~= b@.skip(i + 1));
        i += 1;
    }
    i < b.len()
}

/// The pieces joined with `sep` between them (`[T]::join`).
pub open spec fn join(pieces: Seq<Seq<char>>, sep: Seq<char>) -> Seq<char>
    decreases pieces.len(),
{
    if pieces.len() == 0 {
        Seq::empty()
    } else if pieces.len() == 1 {
        pieces[0]
    } else {
        join(pieces.drop_last(), sep) + sep + pieces.last()
    }
}

/// `[T]::join(sep)` on characters.
pub fn join_chars(pieces: &Vec<Vec<char>>, sep: &Vec<char>) -> (res: Vec<char>)
    ensures
        res@ == join(views(pieces@), sep@),
{
    let mut out: Vec<char> = Vec::new();
    let mut k: usize = 0;
    while k < pieces.len()
        invariant
            k <= pieces@.len(),
            out@ == join(views(pieces@).take(k as int), sep@),
        decreases pieces@.len() - k,
    {
        let ghost before = out@;
        if k > 0 {
            push_chars(&mut out, sep);
        }
        push_chars(&mut out, &pieces[k]);
        k += 1;
        let ghost t = views(pieces@).take(k as int);
        assert(t.drop_last() =~= views(pieces@).take(k - 1));
        if k == 1 {
            assert(before =~= Seq::<char>::empty());
            assert(out@ =~= t[0]);
        }
    }
    assert(views(pieces@).take(pieces@.len() as int) =~= views(pieces@));
    out
}
} // verus!
