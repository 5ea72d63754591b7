//! Text as sequences of characters: searching, splitting, words and columns.
use vstd::prelude::*;
use vstd::string::*;
use vstd::utf8::*;

pub mod laws;

verus! {

/// `String::push` of the standard library: the character is appended.
pub assume_specification[ String::push ](s: &mut String, c: char)
    ensures
        final(s)@ == old(s)@.push(c),
;

/// The characters of `s`, in order.
pub fn to_chars(s: &str) -> (res: Vec<char>)
    ensures
        res@ == s@,
{
    let mut res: Vec<char> = Vec::new();
    for c in it: s.chars()
        invariant
            it.seq() == s@,
            res@ == it.seq().take(it.index() as int),
    {
        res.push(c);
    }
    assert(res@ =~= s@);
    res
}

/// Whether two texts hold the same characters.
pub fn str_eq(a: &str, b: &str) -> (res: bool)
    ensures
        res == (a@ == b@),
{
    let x = to_chars(a);
    let y = to_chars(b);
    if x.len() != y.len() {
        return false;
    }
    for i in 0..x.len()
        invariant
            x@ == a@,
            y@ == b@,
            x@.len() == y@.len(),
            forall|j: int| 0 <= j < i ==> x@[j] == y@[j],
    {
        if x[i] != y[i] {
            return false;
        }
    }
    assert(a@ =~= b@);
    true
}

/// The position of the first `c` in `s`, or the length of `s` if there is none.
pub open spec fn first_pos(s: Seq<char>, c: char) -> int
    decreases s.len(),
{
    if s.len() == 0 || s[0] == c {
        0
    } else {
        1 + first_pos(s.drop_first(), c)
    }
}

/// The position of the last `c` in `s`, or -1 if there is none.
pub open spec fn last_pos(s: Seq<char>, c: char) -> int
    decreases s.len(),
{
    if s.len() == 0 {
        -1
    } else if s.last() == c {
        s.len() - 1
    } else {
        last_pos(s.drop_last(), c)
    }
}

/// `p` is `first_pos(s, c)` exactly if no `c` stands before `p`, and one stands at `p`
/// unless `p` is the end.
pub proof fn lemma_first_pos(s: Seq<char>, c: char, p: int)
    requires
        0 <= p <= s.len(),
        forall|i: int| 0 <= i < p ==> s[i] != c,
        p < s.len() ==> s[p] == c,
    ensures
        first_pos(s, c) == p,
    decreases s.len(),
{
    if s.len() > 0 && s[0] != c {
        lemma_first_pos(s.drop_first(), c, p - 1);
    }
}

/// What `first_pos` finds.
pub proof fn lemma_first_pos_props(s: Seq<char>, c: char)
    ensures
        0 <= first_pos(s, c) <= s.len(),
        forall|i: int| 0 <= i < first_pos(s, c) ==> s[i] != c,
        first_pos(s, c) < s.len() ==> s[first_pos(s, c)] == c,
    decreases s.len(),
{
    if s.len() > 0 && s[0] != c {
        lemma_first_pos_props(s.drop_first(), c);
        assert forall|i: int| 0 <= i < first_pos(s, c) implies s[i] != c by {
            if i > 0 {
                assert(s.drop_first()[i - 1] == s[i]);
            }
        }
    }
}

/// `p` is `last_pos(s, c)` exactly if no `c` stands behind `p`, and one stands at `p`
/// unless `p` is -1.
pub proof fn lemma_last_pos(s: Seq<char>, c: char, p: int)
    requires
        -1 <= p < s.len(),
        forall|i: int| p < i < s.len() ==> s[i] != c,
        p >= 0 ==> s[p] == c,
    ensures
        last_pos(s, c) == p,
    decreases s.len(),
{
    if s.len() > 0 && s.last() != c {
        lemma_last_pos(s.drop_last(), c, p);
    }
}

/// The position of the first `c` in `s`, or the length of `s` if there is none.
pub fn find_first(s: &Vec<char>, c: char) -> (res: usize)
    ensures
        res == first_pos(s@, c),
        res <= s@.len(),
{
    let mut i: usize = 0;
    while i < s.len() && s[i] != c
        invariant
            i <= s@.len(),
            forall|j: int| 0 <= j < i ==> s@[j] != c,
        decreases s@.len() - i,
    {
        i += 1;
    }
    proof {
        lemma_first_pos(s@, c, i as int);
    }
    i
}

/// The position of the last `c` in `s`, if there is one.
pub fn find_last(s: &Vec<char>, c: char) -> (res: Option<usize>)
    ensures
        match res {
            Some(p) => p == last_pos(s@, c) && p < s@.len(),
            None => last_pos(s@, c) == -1,
        },
{
    let mut i: usize = s.len();
    while i > 0
        invariant
            i <= s@.len(),
            forall|j: int| i <= j < s@.len() ==> s@[j] != c,
        decreases i,
    {
        if s[i - 1] == c {
            proof {
                lemma_last_pos(s@, c, i - 1);
            }
            return Some(i - 1);
        }
        i -= 1;
    }
    proof {
        lemma_last_pos(s@, c, -1);
    }
    None
}

/// The pieces of `s` between the separators `c`: one more than there are separators.
pub open spec fn split_on(s: Seq<char>, c: char) -> Seq<Seq<char>>
    decreases s.len(),
{
    let p = first_pos(s, c);
    if p < 0 || p >= s.len() {
        seq![s]
    } else {
        seq![s.take(p)] + split_on(s.skip(p + 1), c)
    }
}

/// The characters of each text.
pub open spec fn views(v: Seq<String>) -> Seq<Seq<char>> {
    v.map_values(|s: String| s@)
}

/// The piece of `s` behind the last `c`: all of `s` if there is none.
pub open spec fn after_last(s: Seq<char>, c: char) -> Seq<char> {
    s.skip(last_pos(s, c) + 1)
}

/// The piece of `s` in front of the first `c`: all of `s` if there is none.
pub open spec fn before_first(s: Seq<char>, c: char) -> Seq<char> {
    s.take(first_pos(s, c))
}

/// A text that holds the characters `s[from..to]`.
pub fn text_of(s: &Vec<char>, from: usize, to: usize) -> (res: String)
    requires
        from <= to <= s@.len(),
    ensures
        res@ == s@.subrange(from as int, to as int),
{
    let mut res = String::new();
    for i in from..to
        invariant
            from <= to <= s@.len(),
            res@ == s@.subrange(from as int, i as int),
    {
        res.push(s[i]);
        assert(s@.subrange(from as int, i + 1) =~= s@.subrange(from as int, i as int).push(
            s@[i as int],
        ));
    }
    res
}

/// The pieces of `s` between the separators `c`.
pub fn split(s: &str, c: char) -> (res: Vec<String>)
    ensures
        views(res@) == split_on(s@, c),
        res@.len() >= 1,
{
    let chars = to_chars(s);
    let mut res: Vec<String> = Vec::new();
    let mut start: usize = 0;
    let mut i: usize = 0;
    assert(s@.skip(0) =~= s@);
    assert(views(res@) + split_on(s@, c) =~= split_on(s@, c));
    while i < chars.len()
        invariant
            chars@ == s@,
            start <= i <= s@.len(),
            forall|j: int| start <= j < i ==> s@[j] != c,
            views(res@) + split_on(s@.skip(start as int), c) == split_on(s@, c),
        decreases s@.len() - i,
    {
        if chars[i] == c {
            let ghost before = views(res@);
            let piece = text_of(&chars, start, i);
            res.push(piece);
            proof {
                let rest = s@.skip(start as int);
                lemma_first_pos(rest, c, i - start);
                assert(rest.take(i - start) =~= piece@);
                assert(rest.skip(i - start + 1) =~= s@.skip(i + 1));
                assert(views(res@) =~= before.push(piece@));
                assert(views(res@) + split_on(s@.skip(i + 1), c) =~= before + split_on(rest, c));
            }
            start = i + 1;
        }
        i += 1;
    }
    let ghost before = views(res@);
    let piece = text_of(&chars, start, chars.len());
    res.push(piece);
    proof {
        let rest = s@.skip(start as int);
        lemma_first_pos(rest, c, rest.len() as int);
        assert(rest =~= piece@);
        assert(views(res@) =~= before.push(piece@));
        assert(views(res@) =~= before + split_on(rest, c));
    }
    res
}

/// A copy of the piece of `s` in front of the first `c`.
pub fn head(s: &str, c: char) -> (res: String)
    ensures
        res@ == before_first(s@, c),
{
    let chars = to_chars(s);
    let p = find_first(&chars, c);
    let res = text_of(&chars, 0, p);
    assert(res@ =~= before_first(s@, c));
    res
}

/// A copy of the piece of `s` behind the last `c`.
pub fn tail(s: &str, c: char) -> (res: String)
    ensures
        res@ == after_last(s@, c),
{
    let chars = to_chars(s);
    let len: usize = chars.len();
    let start: usize = match find_last(&chars, c) {
        Some(p) => p + 1,
        None => 0,
    };
    let res = text_of(&chars, start, len);
    assert(res@ =~= after_last(s@, c));
    res
}

/// A copy of a list of texts.
pub fn copy_texts(v: &Vec<String>) -> (res: Vec<String>)
    ensures
        views(res@) == views(v@),
{
    let mut res: Vec<String> = Vec::new();
    for i in 0..v.len()
        invariant
            views(res@) == views(v@).take(i as int),
    {
        let t = v[i].clone();
        let ghost before = views(res@);
        res.push(t);
        assert(views(res@) =~= before.push(t@));
        assert(views(v@).take(i + 1) =~= views(v@).take(i as int).push(t@));
    }
    assert(views(v@).take(v@.len() as int) =~= views(v@));
    res
}

/// Whether the text `s` is one of `v`.
pub fn contains_text(v: &Vec<String>, s: &str) -> (res: bool)
    ensures
        res == views(v@).contains(s@),
{
    for i in 0..v.len()
        invariant
            forall|j: int| 0 <= j < i ==> #[trigger] views(v@)[j] != s@,
    {
        if str_eq(v[i].as_str(), s) {
            assert(views(v@)[i as int] == s@);
            return true;
        }
    }
    false
}

/// `s` with spaces behind it up to `width` characters.
pub open spec fn padded(s: Seq<char>, width: nat) -> Seq<char> {
    s + Seq::new(
        if s.len() < width {
            (width - s.len()) as nat
        } else {
            0
        },
        |i: int| ' ',
    )
}

/// Appends `s` and spaces up to `width` characters.
pub fn push_padded(out: &mut String, s: &str, width: usize)
    ensures
        final(out)@ == old(out)@ + padded(s@, width as nat),
{
    let len: usize = s.unicode_len();
    out.append(s);
    let ghost start = out@;
    let missing: usize = if len < width {
        width - len
    } else {
        0
    };
    for i in 0..missing
        invariant
            out@ == start + Seq::new(i as nat, |j: int| ' '),
    {
        out.push(' ');
        assert(out@ =~= start + Seq::new((i + 1) as nat, |j: int| ' '));
    }
    assert(out@ =~= old(out)@ + padded(s@, width as nat));
}

/// The texts `v` with `sep` between them.
pub open spec fn joined(v: Seq<Seq<char>>, sep: Seq<char>) -> Seq<char>
    decreases v.len(),
{
    if v.len() == 0 {
        Seq::empty()
    } else if v.len() == 1 {
        v[0]
    } else {
        joined(v.drop_last(), sep) + sep + v.last()
    }
}

/// The first of the texts stands in front of the others.
pub proof fn lemma_joined_first(v: Seq<Seq<char>>, sep: Seq<char>)
    requires
        v.len() >= 2,
    ensures
        joined(v, sep) == v[0] + sep + joined(v.drop_first(), sep),
    decreases v.len(),
{
    if v.len() == 2 {
        assert(joined(v.drop_last(), sep) == v[0]);
        assert(joined(v.drop_first(), sep) == v[1]);
    } else {
        lemma_joined_first(v.drop_last(), sep);
        assert(v.drop_last().drop_first() =~= v.drop_first().drop_last());
        assert(joined(v, sep) =~= v[0] + sep + joined(v.drop_first(), sep));
    }
}

/// The first pieces of `s`, with the separator between them again, are the start of `s`, and
/// where they are not all of `s` a separator follows.
pub proof fn lemma_first_pieces(s: Seq<char>, c: char, k: int)
    requires
        1 <= k <= split_on(s, c).len(),
    ensures
        ({
            let j = joined(split_on(s, c).take(k), seq![c]);
            &&& j.len() <= s.len()
            &&& s.take(j.len() as int) == j
            &&& j.len() < s.len() ==> s[j.len() as int] == c
        }),
    decreases s.len(),
{
    let all = split_on(s, c);
    let p = first_pos(s, c);
    lemma_first_pos_props(s, c);
    if p < s.len() {
        let rest = s.skip(p + 1);
        let others = split_on(rest, c);
        assert(all == seq![s.take(p)] + others);
        if k == 1 {
            assert(all.take(1) =~= seq![s.take(p)]);
        } else {
            lemma_first_pieces(rest, c, k - 1);
            assert(all.take(k).drop_first() =~= others.take(k - 1));
            lemma_joined_first(all.take(k), seq![c]);
            let j = joined(others.take(k - 1), seq![c]);
            let whole = joined(all.take(k), seq![c]);
            assert(whole == s.take(p) + seq![c] + j);
            assert(s.take(whole.len() as int) =~= whole) by {
                assert forall|i: int| 0 <= i < whole.len() implies s[i] == whole[i] by {
                    if i > p {
                        assert(rest[i - p - 1] == s[i]);
                        assert(rest.take(j.len() as int)[i - p - 1] == j[i - p - 1]);
                    }
                }
            }
        }
    } else {
        assert(all.take(1) =~= seq![s]);
        assert(s.take(s.len() as int) =~= s);
    }
}

/// The texts `v` with `sep` between them.
pub fn join(v: &Vec<String>, sep: &str) -> (res: String)
    ensures
        res@ == joined(views(v@), sep@),
{
    let ghost all = views(v@);
    let mut res = String::new();
    for i in 0..v.len()
        invariant
            all == views(v@),
            res@ == joined(all.take(i as int), sep@),
    {
        assert(all.take(i + 1).drop_last() =~= all.take(i as int));
        assert(all.take(i + 1).last() == v@[i as int]@);
        if i > 0 {
            res.append(sep);
        }
        res.append(v[i].as_str());
        assert(res@ =~= joined(all.take(i + 1), sep@));
    }
    assert(all.take(all.len() as int) =~= all);
    res
}

/// What a sequence with one more item at its end contains.
pub proof fn lemma_push_contains<A>(s: Seq<A>, x: A, r: A)
    ensures
        s.push(x).contains(r) <==> s.contains(r) || x == r,
{
    let t = s.push(x);
    if s.contains(r) {
        let i = choose|i: int| 0 <= i < s.len() && s[i] == r;
        assert(t[i] == r);
    }
    if x == r {
        assert(t[s.len() as int] == r);
    }
    if t.contains(r) {
        let i = choose|i: int| 0 <= i < t.len() && t[i] == r;
        if i < s.len() {
            assert(s[i] == r);
        }
    }
}

/// What two sequences behind each other contain.
pub proof fn lemma_concat_contains<A>(a: Seq<A>, b: Seq<A>, r: A)
    ensures
        (a + b).contains(r) <==> a.contains(r) || b.contains(r),
{
    let t = a + b;
    if a.contains(r) {
        let i = choose|i: int| 0 <= i < a.len() && a[i] == r;
        assert(t[i] == r);
    }
    if b.contains(r) {
        let i = choose|i: int| 0 <= i < b.len() && b[i] == r;
        assert(t[a.len() + i] == r);
    }
    if t.contains(r) {
        let i = choose|i: int| 0 <= i < t.len() && t[i] == r;
        if i < a.len() {
            assert(a[i] == r);
        } else {
            assert(b[i - a.len()] == r);
        }
    }
}

/// Whether the piece `p` is a start of `s`.
pub open spec fn starts_with(s: Seq<char>, p: Seq<char>) -> bool {
    p.len() <= s.len() && s.take(p.len() as int) == p
}

/// Whether `s` starts with `p`.
pub fn has_prefix(s: &str, p: &str) -> (res: bool)
    ensures
        res == starts_with(s@, p@),
{
    let x = to_chars(s);
    let y = to_chars(p);
    if y.len() > x.len() {
        return false;
    }
    for i in 0..y.len()
        invariant
            x@ == s@,
            y@ == p@,
            y@.len() <= x@.len(),
            forall|j: int| 0 <= j < i ==> x@[j] == y@[j],
    {
        if x[i] != y[i] {
            assert(s@.take(p@.len() as int)[i as int] != p@[i as int]);
            return false;
        }
    }
    assert(s@.take(p@.len() as int) =~= p@);
    true
}

/// Whether `c` is white space: it has the Unicode property White_Space.
pub open spec fn is_white(c: char) -> bool {
    let v = c as u32;
    ||| 0x9 <= v <= 0xd
    ||| v == 0x20
    ||| v == 0x85
    ||| v == 0xa0
    ||| v == 0x1680
    ||| 0x2000 <= v <= 0x200a
    ||| v == 0x2028
    ||| v == 0x2029
    ||| v == 0x202f
    ||| v == 0x205f
    ||| v == 0x3000
}

/// Whether `c` is white space.
pub fn whitespace(c: char) -> (res: bool)
    ensures
        res == is_white(c),
{
    let v: u32 = c as u32;
    0x9 <= v && v <= 0xd || v == 0x20 || v == 0x85 || v == 0xa0 || v == 0x1680 || 0x2000 <= v && v
        <= 0x200a || v == 0x2028 || v == 0x2029 || v == 0x202f || v == 0x205f || v == 0x3000
}

/// How many characters that are no white space `s` starts with.
pub open spec fn word_len(s: Seq<char>) -> nat
    decreases s.len(),
{
    if s.len() == 0 || is_white(s[0]) {
        0
    } else {
        1 + word_len(s.drop_first())
    }
}

/// The words of `s`: its longest pieces without white space, in order.
pub open spec fn words_of(s: Seq<char>) -> Seq<Seq<char>>
    decreases s.len(),
{
    if s.len() == 0 {
        Seq::empty()
    } else if is_white(s[0]) {
        words_of(s.skip(1))
    } else {
        let k = word_len(s) as int;
        if k <= 0 || k > s.len() {
            Seq::empty()
        } else {
            seq![s.take(k)] + words_of(s.skip(k))
        }
    }
}

/// `s` without the white space that it starts with.
pub open spec fn trim_start_of(s: Seq<char>) -> Seq<char>
    decreases s.len(),
{
    if s.len() > 0 && is_white(s[0]) {
        trim_start_of(s.drop_first())
    } else {
        s
    }
}

/// `s` without the white space that it ends with.
pub open spec fn trim_end_of(s: Seq<char>) -> Seq<char>
    decreases s.len(),
{
    if s.len() > 0 && is_white(s.last()) {
        trim_end_of(s.drop_last())
    } else {
        s
    }
}

/// `s` without white space at either end.
pub open spec fn trim_of(s: Seq<char>) -> Seq<char> {
    trim_end_of(trim_start_of(s))
}

/// `k` is `word_len(s)` if no white space stands before `k`, and some stands at `k` unless
/// `k` is the end.
pub proof fn lemma_word_len(s: Seq<char>, k: int)
    requires
        0 <= k <= s.len(),
        forall|i: int| 0 <= i < k ==> !is_white(#[trigger] s[i]),
        k < s.len() ==> is_white(s[k]),
    ensures
        word_len(s) == k,
    decreases s.len(),
{
    if k > 0 {
        let rest = s.drop_first();
        assert forall|i: int| 0 <= i < k - 1 implies !is_white(#[trigger] rest[i]) by {
            assert(rest[i] == s[i + 1]);
        }
        lemma_word_len(rest, k - 1);
    }
}

/// Whether no character of `s` is white space.
pub open spec fn no_white(s: Seq<char>) -> bool {
    forall|i: int| 0 <= i < s.len() ==> !is_white(#[trigger] s[i])
}

/// A word that white space follows is the first of the words.
pub proof fn lemma_word_then(w: Seq<char>, c: char, rest: Seq<char>)
    requires
        w.len() > 0,
        no_white(w),
        is_white(c),
    ensures
        words_of(w.push(c) + rest) == seq![w] + words_of(rest),
{
    let s = w.push(c) + rest;
    let k = w.len() as int;
    assert forall|i: int| 0 <= i < k implies !is_white(#[trigger] s[i]) by {
        assert(s[i] == w[i]);
    }
    assert(s[k] == c);
    lemma_word_len(s, k);
    assert(s.take(k) =~= w);
    assert(s.skip(k)[0] == c);
    assert(s.skip(k).skip(1) =~= rest);
    assert(words_of(s.skip(k)) == words_of(rest));
    assert(!is_white(s[0]));
}

/// A text without white space is one word, and trimming leaves it as it is.
pub proof fn lemma_one_word(w: Seq<char>)
    requires
        w.len() > 0,
        no_white(w),
    ensures
        words_of(w) == seq![w],
        trim_of(w) == w,
{
    lemma_word_len(w, w.len() as int);
    assert(!is_white(w[0]));
    assert(!is_white(w.last()));
    assert(w.take(w.len() as int) =~= w);
    assert(w.skip(w.len() as int) =~= Seq::<char>::empty());
    assert(words_of(Seq::<char>::empty()) =~= Seq::<Seq<char>>::empty());
    assert(words_of(w) =~= seq![w]);
}

/// The words of `s`.
pub fn words(s: &str) -> (res: Vec<String>)
    ensures
        views(res@) == words_of(s@),
{
    let chars = to_chars(s);
    let len: usize = chars.len();
    let mut res: Vec<String> = Vec::new();
    let mut i: usize = 0;
    assert(s@.skip(0) =~= s@);
    assert(views(res@) + words_of(s@) =~= words_of(s@));
    while i < len
        invariant
            chars@ == s@,
            i <= len == s@.len(),
            views(res@) + words_of(s@.skip(i as int)) == words_of(s@),
        decreases len - i,
    {
        let ghost rest = s@.skip(i as int);
        assert(rest[0] == s@[i as int]);
        if whitespace(chars[i]) {
            assert(rest.skip(1) =~= s@.skip(i + 1));
            i += 1;
        } else {
            let mut end: usize = i + 1;
            while end < len && !whitespace(chars[end])
                invariant
                    chars@ == s@,
                    i < end <= len == s@.len(),
                    forall|j: int| i <= j < end ==> !is_white(#[trigger] s@[j]),
                decreases len - end,
            {
                end += 1;
            }
            let ghost before = views(res@);
            let word = text_of(&chars, i, end);
            res.push(word);
            proof {
                let k = end - i;
                assert forall|j: int| 0 <= j < k implies !is_white(#[trigger] rest[j]) by {
                    assert(rest[j] == s@[i + j]);
                }
                if end < len {
                    assert(rest[k] == s@[end as int]);
                }
                lemma_word_len(rest, k);
                assert(rest.take(k) =~= word@);
                assert(rest.skip(k) =~= s@.skip(end as int));
                assert(views(res@) =~= before.push(word@));
                assert(views(res@) + words_of(s@.skip(end as int)) =~= before + words_of(rest));
            }
            i = end;
        }
    }
    assert(s@.skip(i as int) =~= Seq::<char>::empty());
    assert(views(res@) =~= words_of(s@));
    res
}

/// A copy of `s` without white space at either end.
pub fn trim(s: &str) -> (res: String)
    ensures
        res@ == trim_of(s@),
{
    let chars = to_chars(s);
    let mut start: usize = 0;
    let mut end: usize = chars.len();
    assert(s@.skip(0) =~= s@);
    while start < end && whitespace(chars[start])
        invariant
            chars@ == s@,
            start <= end == s@.len(),
            trim_start_of(s@) == trim_start_of(s@.skip(start as int)),
        decreases end - start,
    {
        assert(s@.skip(start as int).drop_first() =~= s@.skip(start + 1));
        start += 1;
    }
    assert(trim_start_of(s@) == s@.skip(start as int));
    assert(s@.subrange(start as int, end as int) =~= s@.skip(start as int));
    while start < end && whitespace(chars[end - 1])
        invariant
            chars@ == s@,
            start <= end <= s@.len(),
            trim_of(s@) == trim_end_of(s@.subrange(start as int, end as int)),
        decreases end - start,
    {
        assert(s@.subrange(start as int, end as int).drop_last() =~= s@.subrange(
            start as int,
            end - 1,
        ));
        end -= 1;
    }
    text_of(&chars, start, end)
}

/// `std::str::from_utf8`: the text that the bytes encode, or nothing where they are not UTF-8.
#[verifier::external_body]
pub(crate) fn from_utf8(v: &[u8]) -> (res: Option<&str>)
    ensures
        match res {
            Some(s) => valid_utf8(v@) && encode_utf8(s@) == v@,
            None => !valid_utf8(v@),
        },
{
    std::str::from_utf8(v).ok()
}

/// The bytes of two texts behind each other are those of the one and those of the other.
pub proof fn lemma_encode_concat(a: Seq<char>, b: Seq<char>)
    ensures
        encode_utf8(a + b) == encode_utf8(a) + encode_utf8(b),
    decreases a.len(),
{
    if a.len() == 0 {
        assert(a + b =~= b);
        assert(encode_utf8(a) + encode_utf8(b) =~= encode_utf8(b));
    } else {
        lemma_encode_concat(a.drop_first(), b);
        assert((a + b).drop_first() =~= a.drop_first() + b);
        assert(encode_utf8(a + b) =~= encode_utf8(a) + encode_utf8(b));
    }
}

/// A period is one byte.
pub proof fn lemma_encode_period()
    ensures
        encode_utf8(seq!['.']) == seq![0x2eu8],
{
    is_ascii_chars_encode_utf8(seq!['.']);
    assert(encode_utf8(seq!['.']) =~= seq![0x2eu8]);
}

/// A text whose bytes end in that of a period ends in a period.
pub proof fn lemma_decode_period(v: Seq<u8>)
    requires
        valid_utf8(v),
        v.len() > 0,
        v.last() == 0x2e,
    ensures
        valid_utf8(v.drop_last()),
        decode_utf8(v) == decode_utf8(v.drop_last()).push('.'),
{
    let s = decode_utf8(v);
    decode_utf8_encode_utf8(v);
    assert(s.len() > 0);
    let init = s.drop_last();
    let c = s.last();
    assert(s =~= init + seq![c]);
    lemma_encode_concat(init, seq![c]);
    let scalar = c as u32;
    let tail = encode_utf8(seq![c]);
    assert(seq![c].drop_first() =~= Seq::<char>::empty());
    assert(encode_utf8(seq![c].drop_first()) =~= Seq::<u8>::empty());
    assert(tail =~= encode_scalar(scalar));
    assert(tail.len() > 0 && tail.last() == v.last());
    assert(last_continuation_byte(scalar) >= 0x80) by (bit_vector);
    assert(has_width_1_encoding(scalar));
    assert(scalar == 0x2e) by (bit_vector)
        requires
            has_width_1_encoding(scalar),
            leading_byte_width_1(scalar) == 0x2e,
    ;
    char_u32_cast(c, scalar);
    char_u32_cast('.', 0x2e);
    assert(c == '.');
    assert(v.drop_last() =~= encode_utf8(init));
    encode_utf8_valid_utf8(init);
    encode_utf8_decode_utf8(init);
    assert(s =~= init.push('.'));
}

/// The text that `String::from_utf8_lossy` makes of bytes.
pub uninterp spec fn lossy_text(v: Seq<u8>) -> Seq<char>;

/// `String::from_utf8_lossy`: a text that depends on the bytes alone, and is the text that
/// they encode where they are UTF-8. Where they are not, the replacement of the faulty parts
/// is left open.
#[verifier::external_body]
pub(crate) fn from_utf8_lossy(v: &[u8]) -> (res: String)
    ensures
        res@ == lossy_text(v@),
        valid_utf8(v@) ==> encode_utf8(res@) == v@,
{
    String::from_utf8_lossy(v).into_owned()
}

} // verus!
