//! What searching, splitting, joining and trimming promise of every text.
use crate::text;
use vstd::prelude::*;

verus! {

/// Whether `c` does not occur in `s`.
pub open spec fn is_free(s: Seq<char>, c: char) -> bool {
    forall|i: int| 0 <= i < s.len() ==> s[i] != c
}

/// The first of the separators parts a text: in front of it stands the first piece, and behind it
/// the text that the other pieces are of. A text without a separator is its only piece.
pub proof fn law_split(a: Seq<char>, c: char, b: Seq<char>)
    requires
        is_free(a, c),
    ensures
        text::split_on(a, c) == seq![a],
        text::split_on(a.push(c) + b, c) == seq![a] + text::split_on(b, c),
{
    let s = a.push(c) + b;
    let n = a.len() as int;
    text::lemma_first_pos(a, c, n);
    assert forall|i: int| 0 <= i < n implies s[i] != c by {
        assert(s[i] == a[i]);
    }
    assert(s[n] == c);
    text::lemma_first_pos(s, c, n);
    assert(s.take(n) =~= a);
    assert(s.skip(n + 1) =~= b);
}

/// The texts are joined one behind the other, with the separator between any two of them.
pub proof fn law_join(a: Seq<char>, v: Seq<Seq<char>>, sep: Seq<char>)
    ensures
        text::joined(Seq::empty(), sep) == Seq::<char>::empty(),
        text::joined(seq![a], sep) == a,
        v.len() > 0 ==> text::joined(seq![a] + v, sep) == a + sep + text::joined(v, sep),
{
    if v.len() > 0 {
        let all = seq![a] + v;
        text::lemma_joined_first(all, sep);
        assert(all.drop_first() =~= v);
    }
}

/// The pieces of a text hold no separator, and joined again they are the text.
pub proof fn law_split_then_join(s: Seq<char>, c: char)
    ensures
        text::split_on(s, c).len() >= 1,
        forall|i: int|
            0 <= i < text::split_on(s, c).len() ==> is_free(#[trigger] text::split_on(s, c)[i], c),
        text::joined(text::split_on(s, c), seq![c]) == s,
    decreases s.len(),
{
    let p = text::first_pos(s, c);
    text::lemma_first_pos_props(s, c);
    if p < s.len() {
        let rest = s.skip(p + 1);
        law_split_then_join(rest, c);
        let v = text::split_on(rest, c);
        let all = text::split_on(s, c);
        assert(all == seq![s.take(p)] + v);
        assert forall|i: int| 0 <= i < all.len() implies is_free(#[trigger] all[i], c) by {
            if i > 0 {
                assert(all[i] == v[i - 1]);
            }
        }
        law_join(s.take(p), v, seq![c]);
        assert(s.take(p) + seq![c] + rest =~= s);
    }
}

/// Texts without a separator are joined and split again into themselves.
pub proof fn law_join_then_split(v: Seq<Seq<char>>, c: char)
    requires
        v.len() >= 1,
        forall|i: int| 0 <= i < v.len() ==> is_free(#[trigger] v[i], c),
    ensures
        text::split_on(text::joined(v, seq![c]), c) == v,
    decreases v.len(),
{
    let a = v[0];
    let rest = v.drop_first();
    assert(v =~= seq![a] + rest);
    law_join(a, rest, seq![c]);
    if rest.len() > 0 {
        assert forall|i: int| 0 <= i < rest.len() implies is_free(#[trigger] rest[i], c) by {
            assert(rest[i] == v[i + 1]);
        }
        law_join_then_split(rest, c);
        let b = text::joined(rest, seq![c]);
        law_split(a, c, b);
        assert(a + seq![c] + b =~= a.push(c) + b);
    } else {
        law_split(a, c, Seq::empty());
        assert(v =~= seq![a]);
    }
}

/// What stands in front of the first and behind the last of the characters `c`.
pub proof fn law_around(a: Seq<char>, c: char, b: Seq<char>)
    ensures
        is_free(a, c) ==> text::before_first(a.push(c) + b, c) == a,
        is_free(a, c) ==> text::before_first(a, c) == a,
        is_free(b, c) ==> text::after_last(a.push(c) + b, c) == b,
        is_free(b, c) ==> text::after_last(b, c) == b,
        is_free(b, c) ==> text::last_pos(a.push(c) + b, c) == a.len(),
        is_free(a, c) <==> text::last_pos(a, c) < 0,
{
    let s = a.push(c) + b;
    let n = a.len() as int;
    assert(s[n] == c);
    if is_free(a, c) {
        assert forall|i: int| 0 <= i < n implies s[i] != c by {
            assert(s[i] == a[i]);
        }
        text::lemma_first_pos(s, c, n);
        text::lemma_first_pos(a, c, n);
        text::lemma_last_pos(a, c, -1);
        assert(s.take(n) =~= a);
        assert(a.take(n) =~= a);
    } else {
        lemma_has_last(a, c);
    }
    if is_free(b, c) {
        assert forall|i: int| n < i < s.len() implies s[i] != c by {
            assert(s[i] == b[i - n - 1]);
        }
        text::lemma_last_pos(s, c, n);
        text::lemma_last_pos(b, c, -1);
        assert(s.skip(n + 1) =~= b);
        assert(b.skip(0) =~= b);
    }
}

/// Where a character occurs, its last place is a place.
pub proof fn lemma_has_last(a: Seq<char>, c: char)
    ensures
        text::last_pos(a, c) >= 0 ==> text::last_pos(a, c) < a.len() && a[text::last_pos(a, c)]
            == c,
        forall|i: int| text::last_pos(a, c) < i < a.len() ==> a[i] != c,
        text::last_pos(a, c) >= -1,
        !is_free(a, c) ==> text::last_pos(a, c) >= 0,
    decreases a.len(),
{
    if a.len() > 0 && a.last() != c {
        let init = a.drop_last();
        lemma_has_last(init, c);
        assert forall|i: int| text::last_pos(a, c) < i < a.len() implies a[i] != c by {
            if i < init.len() {
                assert(init[i] == a[i]);
            }
        }
        if !is_free(a, c) {
            let i = choose|i: int| 0 <= i < a.len() && a[i] == c;
            assert(init[i] == c);
        }
    }
}

/// White space parts words and belongs to none of them: in front of a word it changes nothing,
/// and behind one it ends it.
pub proof fn law_words(w: Seq<char>, c: char, rest: Seq<char>)
    requires
        text::is_white(c),
    ensures
        text::words_of(Seq::empty()) == Seq::<Seq<char>>::empty(),
        text::words_of(seq![c] + rest) == text::words_of(rest),
        w.len() > 0 && text::no_white(w) ==> text::words_of(w) == seq![w],
        w.len() > 0 && text::no_white(w) ==> text::words_of(w.push(c) + rest) == seq![w]
            + text::words_of(rest),
{
    let s = seq![c] + rest;
    assert(s[0] == c);
    assert(s.skip(1) =~= rest);
    if w.len() > 0 && text::no_white(w) {
        text::lemma_one_word(w);
        text::lemma_word_then(w, c, rest);
    }
}

/// Trimming takes away all white space at both ends and nothing else.
pub proof fn law_trim(l: Seq<char>, m: Seq<char>, r: Seq<char>)
    requires
        forall|i: int| 0 <= i < l.len() ==> text::is_white(#[trigger] l[i]),
        forall|i: int| 0 <= i < r.len() ==> text::is_white(#[trigger] r[i]),
        m.len() > 0 ==> !text::is_white(m[0]) && !text::is_white(m.last()),
    ensures
        text::trim_of(l + m + r) == m,
{
    lemma_trim_start(l, m + r);
    assert(l + m + r =~= l + (m + r));
    if m.len() == 0 {
        assert(m + r =~= r);
        lemma_trim_start(r, Seq::empty());
        assert(r + Seq::<char>::empty() =~= r);
        assert(text::trim_start_of(Seq::<char>::empty()) =~= Seq::<char>::empty());
        assert(text::trim_start_of(l + m + r) =~= Seq::<char>::empty());
        assert(m =~= Seq::<char>::empty());
    } else {
        assert((m + r)[0] == m[0]);
        assert(text::trim_start_of(m + r) == m + r);
        lemma_trim_end(m, r);
        assert(text::trim_end_of(m) == m);
    }
}

proof fn lemma_trim_start(l: Seq<char>, s: Seq<char>)
    requires
        forall|i: int| 0 <= i < l.len() ==> text::is_white(#[trigger] l[i]),
    ensures
        text::trim_start_of(l + s) == text::trim_start_of(s),
    decreases l.len(),
{
    if l.len() > 0 {
        let rest = l.drop_first();
        assert forall|i: int| 0 <= i < rest.len() implies text::is_white(#[trigger] rest[i]) by {
            assert(rest[i] == l[i + 1]);
        }
        lemma_trim_start(rest, s);
        assert((l + s)[0] == l[0]);
        assert((l + s).drop_first() =~= rest + s);
    } else {
        assert(l + s =~= s);
    }
}

proof fn lemma_trim_end(s: Seq<char>, r: Seq<char>)
    requires
        forall|i: int| 0 <= i < r.len() ==> text::is_white(#[trigger] r[i]),
    ensures
        text::trim_end_of(s + r) == text::trim_end_of(s),
    decreases r.len(),
{
    if r.len() > 0 {
        let rest = r.drop_last();
        assert forall|i: int| 0 <= i < rest.len() implies text::is_white(#[trigger] rest[i]) by {
            assert(rest[i] == r[i]);
        }
        lemma_trim_end(s, rest);
        assert((s + r).last() == r[r.len() - 1]);
        assert((s + r).drop_last() =~= s + rest);
    } else {
        assert(s + r =~= s);
    }
}

/// A column is as wide as it is to be, or as its text where that is wider. The text stands at its
/// start, and the rest is spaces.
pub proof fn law_padded(s: Seq<char>, width: nat)
    ensures
        s.len() <= width ==> text::padded(s, width).len() == width,
        s.len() >= width ==> text::padded(s, width) == s,
        text::padded(s, width).take(s.len() as int) == s,
        forall|i: int| s.len() <= i < text::padded(s, width).len() ==> text::padded(s, width)[i] == ' ',
{
    assert(text::padded(s, width).take(s.len() as int) =~= s);
    if s.len() >= width {
        assert(text::padded(s, width) =~= s);
    }
}

/// A text starts with what stands at its start, and with nothing that differs from it.
pub proof fn law_starts_with(p: Seq<char>, rest: Seq<char>, other: Seq<char>)
    ensures
        text::starts_with(p + rest, p),
        text::starts_with(rest, p) && text::starts_with(rest, other) && p.len() == other.len()
            ==> p == other,
        text::starts_with(rest, p) ==> p.len() <= rest.len(),
{
    assert((p + rest).take(p.len() as int) =~= p);
}

/// The first pieces of a text, joined again, are the starts of the text that end with it or in
/// front of a separator: each start of that kind is the join of some first pieces.
pub proof fn law_starts_are_pieces(s: Seq<char>, c: char, n: int)
    requires
        0 <= n <= s.len(),
        n < s.len() ==> s[n] == c,
    ensures
        exists|k: int|
            1 <= k <= text::split_on(s, c).len() && #[trigger] text::joined(
                text::split_on(s, c).take(k),
                seq![c],
            ) == s.take(n),
    decreases s.len(),
{
    let all = text::split_on(s, c);
    let p = text::first_pos(s, c);
    text::lemma_first_pos_props(s, c);
    if p >= s.len() || n <= p {
        assert(n == p);
        assert(all.take(1) =~= seq![s.take(n)]) by {
            if p >= s.len() {
                assert(s.take(n) =~= s);
            }
        }
        assert(text::joined(all.take(1), seq![c]) == s.take(n));
    } else {
        let rest = s.skip(p + 1);
        let v = text::split_on(rest, c);
        assert(all == seq![s.take(p)] + v);
        let m = n - p - 1;
        law_starts_are_pieces(rest, c, m);
        let k = choose|k: int|
            1 <= k <= v.len() && #[trigger] text::joined(v.take(k), seq![c]) == rest.take(m);
        assert(all.take(k + 1) =~= seq![s.take(p)] + v.take(k));
        law_join(s.take(p), v.take(k), seq![c]);
        assert(s.take(p) + seq![c] + rest.take(m) =~= s.take(n));
        assert(text::joined(all.take(k + 1), seq![c]) == s.take(n));
    }
}

} // verus!
