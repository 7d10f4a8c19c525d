//! Placeholder substitution.
//!
//! A placeholder is two opening braces, a key without braces, and two
//! closing braces. Rendering replaces each placeholder whose key is bound
//! by the key's value and copies everything else.

use vstd::prelude::*;
use crate::context::{text_of_ref, Context};
use crate::text::{chars_of, string_of, string_of_range, utf8_text};
use vstd::slice::slice_to_vec;
use vstd::string::*;
use vstd::utf8::{decode_utf8, encode_utf8, valid_utf8};

verus! {

/// Whether `c` is one of the two characters that delimit a placeholder.
pub open spec fn is_brace(c: char) -> bool {
    c == '{' || c == '}'
}

/// Whether no character of `s` is a brace.
pub open spec fn brace_free(s: Seq<char>) -> bool {
    forall|i: int| 0 <= i < s.len() ==> !is_brace(#[trigger] s[i])
}

/// How many characters of `s`, counted from index `from`, come before the
/// next brace or the end.
pub open spec fn plain_len(s: Seq<char>, from: int) -> nat
    decreases s.len() - from,
{
    if 0 <= from < s.len() && !is_brace(s[from]) {
        1 + plain_len(s, from + 1)
    } else {
        0
    }
}

/// The placeholder for `key`.
pub open spec fn token(key: Seq<char>) -> Seq<char> {
    seq!['{', '{'] + key + seq!['}', '}']
}

/// The key of the placeholder that `s` begins with, if it begins with one.
pub open spec fn head_key(s: Seq<char>) -> Option<Seq<char>> {
    let n = plain_len(s, 2) as int;
    if s.len() >= n + 4 && s[0] == '{' && s[1] == '{' && s[2 + n] == '}' && s[3 + n] == '}' {
        Some(s.subrange(2, 2 + n))
    } else {
        None
    }
}

/// Whether `s` begins with a placeholder whose key `bindings` binds.
pub open spec fn head_bound(bindings: Map<Seq<char>, Seq<char>>, s: Seq<char>) -> bool {
    head_key(s) is Some && bindings.contains_key(head_key(s)->0)
}

/// The text `s` with every placeholder of a bound key replaced by the
/// key's value, read from left to right. Placeholders of unbound keys and
/// all other characters stay as they are.
pub open spec fn render(bindings: Map<Seq<char>, Seq<char>>, s: Seq<char>) -> Seq<char>
    decreases s.len(),
{
    if s.len() == 0 {
        s
    } else if head_bound(bindings, s) {
        let key = head_key(s)->0;
        bindings[key] + render(bindings, s.skip(key.len() as int + 4))
    } else {
        seq![s[0]] + render(bindings, s.skip(1))
    }
}

/// Counting plain characters from `from` gives the same as counting them
/// from `upto`, plus the distance, when only plain characters lie between.
proof fn lemma_plain_len_step(s: Seq<char>, from: int, upto: int)
    requires
        0 <= from <= upto <= s.len(),
        forall|k: int| from <= k < upto ==> !is_brace(#[trigger] s[k]),
    ensures
        plain_len(s, from) == (upto - from) + plain_len(s, upto),
    decreases upto - from,
{
    if from < upto {
        lemma_plain_len_step(s, from + 1, upto);
    }
}

/// What `plain_len` counts: the characters it passes over are plain, and
/// it stops at a brace or at the end.
proof fn lemma_plain_len_stops(s: Seq<char>, from: int)
    requires
        0 <= from <= s.len(),
    ensures
        from + plain_len(s, from) <= s.len(),
        forall|k: int| from <= k < from + plain_len(s, from) ==> !is_brace(#[trigger] s[k]),
        from + plain_len(s, from) < s.len() ==> is_brace(s[from + plain_len(s, from)]),
    decreases s.len() - from,
{
    if from < s.len() && !is_brace(s[from]) {
        lemma_plain_len_step(s, from + 1, from + 1);
        lemma_plain_len_stops(s, from + 1);
    }
}

/// A text that begins with the placeholder of `key` has `key` as its head key.
proof fn lemma_head_key_of_token(key: Seq<char>, post: Seq<char>)
    requires
        brace_free(key),
    ensures
        head_key(token(key) + post) == Some(key),
        (token(key) + post).skip(key.len() as int + 4) == post,
{
    let s = token(key) + post;
    let n = key.len() as int;
    assert forall|k: int| 2 <= k < 2 + n implies !is_brace(#[trigger] s[k]) by {
        assert(s[k] == key[k - 2]);
    }
    assert(s[2 + n] == '}');
    assert(s[3 + n] == '}');
    lemma_plain_len_step(s, 2, 2 + n);
    assert(s.subrange(2, 2 + n) =~= key);
    assert(s.skip(n + 4) =~= post);
}

/// Where a placeholder of two opening braces follows `pre`, the head key
/// of the whole text is the head key of `pre`: no placeholder begins in
/// `pre` and ends behind it.
proof fn lemma_head_key_local(pre: Seq<char>, rest: Seq<char>)
    requires
        pre.len() > 0,
        rest.len() >= 2,
        rest[0] == '{',
        rest[1] == '{',
    ensures
        head_key(pre + rest) == head_key(pre),
{
    let s = pre + rest;
    let len = pre.len() as int;
    if len >= 2 {
        lemma_plain_len_stops(pre, 2);
        let n = plain_len(pre, 2) as int;
        assert forall|k: int| 2 <= k < 2 + n implies !is_brace(#[trigger] s[k]) by {
            assert(s[k] == pre[k]);
        }
        lemma_plain_len_step(s, 2, 2 + n);
        if 2 + n < len {
            assert(s[2 + n] == pre[2 + n]);
        } else {
            assert(s[2 + n] == rest[0]);
        }
        assert(plain_len(s, 2 + n) == 0);
        assert(plain_len(s, 2) == n);
        if len >= n + 4 {
            assert(s[0] == pre[0] && s[1] == pre[1]);
            assert(s[2 + n] == pre[2 + n] && s[3 + n] == pre[3 + n]);
            assert(s.subrange(2, 2 + n) =~= pre.subrange(2, 2 + n));
        } else if len == n + 3 {
            assert(s[3 + n] == rest[0]);
        }
    } else {
        assert(s[1] == rest[0]);
        assert(s[2] == rest[1]);
        assert(plain_len(s, 2) == 0);
    }
}

/// Rendering distributes over a cut that is followed by two opening braces.
pub proof fn lemma_render_split(bindings: Map<Seq<char>, Seq<char>>, pre: Seq<char>, rest: Seq<char>)
    requires
        rest.len() >= 2,
        rest[0] == '{',
        rest[1] == '{',
    ensures
        render(bindings, pre + rest) == render(bindings, pre) + render(bindings, rest),
    decreases pre.len(),
{
    let s = pre + rest;
    if pre.len() == 0 {
        assert(s =~= rest);
    } else {
        lemma_head_key_local(pre, rest);
        if head_bound(bindings, pre) {
            let key = head_key(pre)->0;
            let w = key.len() as int + 4;
            assert(s.skip(w) =~= pre.skip(w) + rest);
            lemma_render_split(bindings, pre.skip(w), rest);
            assert(render(bindings, s) =~= render(bindings, pre) + render(bindings, rest));
        } else {
            assert(s.skip(1) =~= pre.skip(1) + rest);
            lemma_render_split(bindings, pre.skip(1), rest);
            assert(render(bindings, s) =~= render(bindings, pre) + render(bindings, rest));
        }
    }
}

/// Characters other than the opening brace are copied as they are.
pub proof fn lemma_render_copies(bindings: Map<Seq<char>, Seq<char>>, plain: Seq<char>, rest: Seq<char>)
    requires
        forall|i: int| 0 <= i < plain.len() ==> #[trigger] plain[i] != '{',
    ensures
        render(bindings, plain + rest) == plain + render(bindings, rest),
    decreases plain.len(),
{
    let s = plain + rest;
    if plain.len() == 0 {
        assert(s =~= rest);
        assert(plain + render(bindings, rest) =~= render(bindings, rest));
    } else {
        assert(s[0] == plain[0]);
        assert(head_key(s) is None);
        assert(s.skip(1) =~= plain.skip(1) + rest);
        lemma_render_copies(bindings, plain.skip(1), rest);
        assert(plain =~= seq![plain[0]] + plain.skip(1));
        assert(render(bindings, s) =~= plain + render(bindings, rest));
    }
}

/// Every occurrence of a placeholder whose key is bound is replaced by the
/// key's value: wherever the placeholder stands in a text, the rendered
/// text is the rendered text before it, the value, and the rendered text
/// behind it.
pub proof fn lemma_bound_token_replaced(
    bindings: Map<Seq<char>, Seq<char>>,
    pre: Seq<char>,
    key: Seq<char>,
    post: Seq<char>,
)
    requires
        brace_free(key),
        bindings.contains_key(key),
    ensures
        render(bindings, pre + token(key) + post) == render(bindings, pre) + bindings[key]
            + render(bindings, post),
{
    let tail = token(key) + post;
    assert(tail[0] == '{' && tail[1] == '{');
    assert(pre + token(key) + post =~= pre + tail);
    lemma_render_split(bindings, pre, tail);
    lemma_head_key_of_token(key, post);
    assert(render(bindings, tail) == bindings[key] + render(bindings, post));
    assert(render(bindings, pre) + (bindings[key] + render(bindings, post)) =~= render(
        bindings,
        pre,
    ) + bindings[key] + render(bindings, post));
}

/// Every occurrence of a placeholder whose key is unbound stays as it is.
pub proof fn lemma_unbound_token_kept(
    bindings: Map<Seq<char>, Seq<char>>,
    pre: Seq<char>,
    key: Seq<char>,
    post: Seq<char>,
)
    requires
        brace_free(key),
        !bindings.contains_key(key),
    ensures
        render(bindings, pre + token(key) + post) == render(bindings, pre) + token(key) + render(
            bindings,
            post,
        ),
{
    let tail = token(key) + post;
    assert(tail[0] == '{' && tail[1] == '{');
    assert(pre + token(key) + post =~= pre + tail);
    lemma_render_split(bindings, pre, tail);
    lemma_head_key_of_token(key, post);
    let inner = seq!['{'] + key + seq!['}', '}'];
    assert(tail.skip(1) =~= inner + post);
    assert(render(bindings, tail) == seq!['{'] + render(bindings, inner + post));
    let after = key + seq!['}', '}'];
    assert(inner + post =~= seq!['{'] + (after + post));
    let t = inner + post;
    assert(t[0] == '{');
    assert(t[1] != '{') by {
        if key.len() > 0 {
            assert(t[1] == key[0]);
        } else {
            assert(t[1] == '}');
        }
    }
    assert(head_key(t) is None);
    assert(t.skip(1) =~= after + post);
    assert forall|i: int| 0 <= i < after.len() implies #[trigger] after[i] != '{' by {
        if i < key.len() {
            assert(after[i] == key[i]);
        }
    }
    lemma_render_copies(bindings, after, post);
    assert(render(bindings, tail) =~= token(key) + render(bindings, post));
    assert(render(bindings, pre) + (token(key) + render(bindings, post)) =~= render(
        bindings,
        pre,
    ) + token(key) + render(bindings, post));
}

/// A stretch of a text: plain characters, or the placeholder of a key.
pub enum Piece {
    Plain(Seq<char>),
    Token(Seq<char>),
}

/// Whether the pieces are what they say: the plain stretches and the keys
/// hold no brace.
pub open spec fn tidy(pieces: Seq<Piece>) -> bool {
    forall|i: int|
        0 <= i < pieces.len() ==> match #[trigger] pieces[i] {
            Piece::Plain(plain) => brace_free(plain),
            Piece::Token(key) => brace_free(key),
        }
}

/// The text of one piece.
pub open spec fn piece_text(piece: Piece) -> Seq<char> {
    match piece {
        Piece::Plain(plain) => plain,
        Piece::Token(key) => token(key),
    }
}

/// One piece rendered: the value in place of the placeholder of a bound
/// key, the piece's own text otherwise.
pub open spec fn piece_rendered(bindings: Map<Seq<char>, Seq<char>>, piece: Piece) -> Seq<char> {
    match piece {
        Piece::Plain(plain) => plain,
        Piece::Token(key) => if bindings.contains_key(key) {
            bindings[key]
        } else {
            token(key)
        },
    }
}

/// The text that the pieces make up.
pub open spec fn pieces_text(pieces: Seq<Piece>) -> Seq<char>
    decreases pieces.len(),
{
    if pieces.len() == 0 {
        Seq::empty()
    } else {
        piece_text(pieces[0]) + pieces_text(pieces.skip(1))
    }
}

/// The pieces rendered one by one.
pub open spec fn pieces_rendered(bindings: Map<Seq<char>, Seq<char>>, pieces: Seq<Piece>) -> Seq<char>
    decreases pieces.len(),
{
    if pieces.len() == 0 {
        Seq::empty()
    } else {
        piece_rendered(bindings, pieces[0]) + pieces_rendered(bindings, pieces.skip(1))
    }
}

/// Whether no value of `bindings` holds a brace.
pub open spec fn plain_values(bindings: Map<Seq<char>, Seq<char>>) -> bool {
    forall|key: Seq<char>| bindings.contains_key(key) ==> brace_free(#[trigger] bindings[key])
}

/// Whether `part` stands somewhere in `whole`.
pub open spec fn occurs_in(part: Seq<char>, whole: Seq<char>) -> bool {
    exists|i: int|
        0 <= i <= whole.len() - part.len() && #[trigger] whole.subrange(i, i + part.len()) == part
}

/// How many of the characters of `s` are braces.
pub open spec fn braces(s: Seq<char>) -> nat
    decreases s.len(),
{
    if s.len() == 0 {
        0
    } else if is_brace(s.last()) {
        braces(s.drop_last()) + 1
    } else {
        braces(s.drop_last())
    }
}

/// The braces of two texts in a row are those of the one and of the other.
proof fn lemma_braces_add(a: Seq<char>, b: Seq<char>)
    ensures
        braces(a + b) == braces(a) + braces(b),
    decreases b.len(),
{
    if b.len() == 0 {
        assert(a + b =~= a);
    } else {
        assert((a + b).drop_last() =~= a + b.drop_last());
        lemma_braces_add(a, b.drop_last());
    }
}

/// A text without braces has none.
proof fn lemma_braces_none(s: Seq<char>)
    requires
        brace_free(s),
    ensures
        braces(s) == 0,
    decreases s.len(),
{
    if s.len() > 0 {
        assert(!is_brace(s[s.len() - 1]));
        lemma_braces_none(s.drop_last());
    }
}

/// A placeholder has four braces.
proof fn lemma_braces_of_token(key: Seq<char>)
    requires
        brace_free(key),
    ensures
        braces(token(key)) == 4,
{
    let open = seq!['{', '{'];
    let close = seq!['}', '}'];
    assert(braces(open) == 2) by {
        assert(open.drop_last() =~= seq!['{']);
        assert(seq!['{'].drop_last() =~= Seq::<char>::empty());
        reveal_with_fuel(braces, 3);
    }
    assert(braces(close) == 2) by {
        assert(close.drop_last() =~= seq!['}']);
        assert(seq!['}'].drop_last() =~= Seq::<char>::empty());
        reveal_with_fuel(braces, 3);
    }
    lemma_braces_none(key);
    lemma_braces_add(open, key);
    lemma_braces_add(open + key, close);
}

/// Rendering with values that hold no brace adds no brace.
proof fn lemma_render_braces(bindings: Map<Seq<char>, Seq<char>>, s: Seq<char>)
    requires
        plain_values(bindings),
    ensures
        braces(render(bindings, s)) <= braces(s),
    decreases s.len(),
{
    if s.len() > 0 {
        if head_bound(bindings, s) {
            let key = head_key(s)->0;
            let w = key.len() as int + 4;
            assert(s =~= s.take(w) + s.skip(w));
            lemma_braces_add(s.take(w), s.skip(w));
            lemma_render_braces(bindings, s.skip(w));
            lemma_braces_none(bindings[key]);
            lemma_braces_add(bindings[key], render(bindings, s.skip(w)));
        } else {
            assert(s =~= seq![s[0]] + s.skip(1));
            lemma_braces_add(seq![s[0]], s.skip(1));
            lemma_render_braces(bindings, s.skip(1));
            lemma_braces_add(seq![s[0]], render(bindings, s.skip(1)));
        }
    }
}

/// A text that is made of plain stretches and placeholders renders piece
/// by piece: each placeholder of a bound key gives the key's value, and
/// everything else stays.
pub proof fn lemma_render_pieces(bindings: Map<Seq<char>, Seq<char>>, pieces: Seq<Piece>)
    requires
        tidy(pieces),
    ensures
        render(bindings, pieces_text(pieces)) == pieces_rendered(bindings, pieces),
    decreases pieces.len(),
{
    if pieces.len() > 0 {
        let rest = pieces.skip(1);
        let tail = pieces_text(rest);
        assert(tidy(rest)) by {
            assert forall|i: int| 0 <= i < rest.len() implies match #[trigger] rest[i] {
                Piece::Plain(plain) => brace_free(plain),
                Piece::Token(key) => brace_free(key),
            } by {
                assert(rest[i] == pieces[i + 1]);
            }
        }
        lemma_render_pieces(bindings, rest);
        let none = Seq::<char>::empty();
        match pieces[0] {
            Piece::Plain(plain) => {
                assert forall|i: int| 0 <= i < plain.len() implies #[trigger] plain[i] != '{' by {
                    assert(!is_brace(plain[i]));
                }
                lemma_render_copies(bindings, plain, tail);
            },
            Piece::Token(key) => {
                assert(none + token(key) + tail =~= token(key) + tail);
                if bindings.contains_key(key) {
                    lemma_bound_token_replaced(bindings, none, key, tail);
                    assert(render(bindings, none) + bindings[key] + render(bindings, tail)
                        =~= bindings[key] + render(bindings, tail));
                } else {
                    lemma_unbound_token_kept(bindings, none, key, tail);
                    assert(render(bindings, none) + token(key) + render(bindings, tail) =~= token(
                        key,
                    ) + render(bindings, tail));
                }
            },
        }
    }
}

/// What such a text renders to, rendered again, stays as it is, where no
/// value holds a brace.
proof fn lemma_rendered_stable(bindings: Map<Seq<char>, Seq<char>>, pieces: Seq<Piece>)
    requires
        tidy(pieces),
        plain_values(bindings),
    ensures
        render(bindings, pieces_rendered(bindings, pieces)) == pieces_rendered(bindings, pieces),
    decreases pieces.len(),
{
    if pieces.len() > 0 {
        let rest = pieces.skip(1);
        let tail = pieces_rendered(bindings, rest);
        assert(tidy(rest)) by {
            assert forall|i: int| 0 <= i < rest.len() implies match #[trigger] rest[i] {
                Piece::Plain(plain) => brace_free(plain),
                Piece::Token(key) => brace_free(key),
            } by {
                assert(rest[i] == pieces[i + 1]);
            }
        }
        lemma_rendered_stable(bindings, rest);
        let none = Seq::<char>::empty();
        let first = piece_rendered(bindings, pieces[0]);
        match pieces[0] {
            Piece::Plain(plain) => {
                assert forall|i: int| 0 <= i < first.len() implies #[trigger] first[i] != '{' by {
                    assert(!is_brace(plain[i]));
                }
                lemma_render_copies(bindings, first, tail);
            },
            Piece::Token(key) => {
                if bindings.contains_key(key) {
                    assert forall|i: int| 0 <= i < first.len() implies #[trigger] first[i] != '{' by {
                        assert(!is_brace(bindings[key][i]));
                    }
                    lemma_render_copies(bindings, first, tail);
                } else {
                    assert(none + token(key) + tail =~= token(key) + tail);
                    lemma_unbound_token_kept(bindings, none, key, tail);
                    assert(render(bindings, none) + token(key) + render(bindings, tail) =~= token(
                        key,
                    ) + render(bindings, tail));
                }
            },
        }
    }
}

/// A text that is made of plain stretches and placeholders, rendered with
/// values that hold no brace, holds no placeholder of a bound key any more.
pub proof fn lemma_no_bound_token_left(
    bindings: Map<Seq<char>, Seq<char>>,
    pieces: Seq<Piece>,
    key: Seq<char>,
)
    requires
        tidy(pieces),
        plain_values(bindings),
        brace_free(key),
        bindings.contains_key(key),
    ensures
        !occurs_in(token(key), render(bindings, pieces_text(pieces))),
{
    let out = render(bindings, pieces_text(pieces));
    lemma_render_pieces(bindings, pieces);
    lemma_rendered_stable(bindings, pieces);
    if occurs_in(token(key), out) {
        let part = token(key);
        let i = choose|i: int|
            0 <= i <= out.len() - part.len() && #[trigger] out.subrange(i, i + part.len()) == part;
        let pre = out.take(i);
        let post = out.skip(i + part.len());
        assert(out =~= pre + part + post);
        lemma_bound_token_replaced(bindings, pre, key, post);
        lemma_render_braces(bindings, pre);
        lemma_render_braces(bindings, post);
        lemma_braces_none(bindings[key]);
        lemma_braces_of_token(key);
        lemma_braces_add(pre, part);
        lemma_braces_add(pre + part, post);
        lemma_braces_add(render(bindings, pre), bindings[key]);
        lemma_braces_add(render(bindings, pre) + bindings[key], render(bindings, post));
        assert(false);
    }
}

/// Appends the characters of `extra` to `out`.
fn extend(out: &mut Vec<char>, extra: &Vec<char>)
    ensures
        final(out)@ == old(out)@ + extra@,
{
    let mut k: usize = 0;
    while k < extra.len()
        invariant
            k <= extra.len(),
            out@ == old(out)@ + extra@.take(k as int),
        decreases extra.len() - k,
    {
        out.push(extra[k]);
        k += 1;
        assert(extra@.take(k as int) == extra@.take(k - 1).push(extra@[k - 1]));
    }
    assert(extra@.take(extra.len() as int) == extra@);
}

/// Renders `input` with the bindings of `context`.
pub fn render_chars(context: &Context, input: &Vec<char>) -> (out: Vec<char>)
    ensures
        out@ == render(context.bindings(), input@),
{
    let ghost bindings = context.bindings();
    let n = input.len();
    let mut out: Vec<char> = Vec::new();
    let mut i: usize = 0;
    assert(input@.skip(0) == input@);
    while i < n
        invariant
            i <= n,
            n == input.len(),
            bindings == context.bindings(),
            out@ + render(bindings, input@.skip(i as int)) == render(bindings, input@),
        decreases n - i,
    {
        let ghost rest = input@.skip(i as int);
        let mut width: usize = 0;
        if n - i >= 4 && input[i] == '{' && input[i + 1] == '{' {
            let mut j: usize = i + 2;
            while j < n && input[j] != '{' && input[j] != '}'
                invariant
                    i + 2 <= j <= n,
                    n == input.len(),
                    forall|k: int| i + 2 <= k < j ==> !is_brace(#[trigger] input@[k]),
                decreases n - j,
            {
                j += 1;
            }
            proof {
                assert forall|k: int| 2 <= k < j - i implies !is_brace(#[trigger] rest[k]) by {
                    assert(rest[k] == input@[i + k]);
                }
                lemma_plain_len_step(rest, 2, j - i);
                assert(plain_len(rest, j - i) == 0);
            }
            if n - j >= 2 && input[j] == '}' && input[j + 1] == '}' {
                let key = string_of_range(input, i + 2, j);
                assert(head_key(rest) == Some(key@)) by {
                    assert(rest.subrange(2, j - i) == input@.subrange(i + 2, j as int));
                }
                match context.lookup(&key) {
                    Some(value) => {
                        let value_chars = chars_of(value.as_str());
                        extend(&mut out, &value_chars);
                        width = j + 2 - i;
                        proof {
                            assert(text_of_ref(Some(value)) == context.value_of(key@));
                            assert(bindings.contains_key(key@));
                            assert(bindings[key@] == value@);
                            assert(rest.skip(key@.len() as int + 4) == input@.skip(i + width));
                        }
                    },
                    None => {
                        assert(!bindings.contains_key(key@));
                    },
                }
            } else {
                assert(head_key(rest) is None);
            }
        } else {
            assert(head_key(rest) is None);
        }
        assert(width == 0 ==> !head_bound(bindings, rest));
        if width == 0 {
            out.push(input[i]);
            proof {
                assert(rest.skip(1) == input@.skip(i + 1));
                assert(!head_bound(bindings, rest));
            }
            i += 1;
        } else {
            i += width;
        }
    }
    out
}

/// Renders the text `text` with the bindings of `context`.
pub fn render_text(context: &Context, text: &str) -> (out: String)
    ensures
        out@ == render(context.bindings(), text@),
{
    let input = chars_of(text);
    let output = render_chars(context, &input);
    string_of(&output)
}

/// Whether a file of these bytes counts as text: the bytes are valid UTF-8
/// and none of them is zero. Every other file is binary.
pub open spec fn is_text(bytes: Seq<u8>) -> bool {
    valid_utf8(bytes) && !bytes.contains(0u8)
}

/// What a file of these bytes is materialized as: a text file is decoded,
/// rendered and encoded again; a binary file is copied byte for byte.
pub open spec fn render_bytes(bindings: Map<Seq<char>, Seq<char>>, bytes: Seq<u8>) -> Seq<u8> {
    if is_text(bytes) {
        encode_utf8(render(bindings, decode_utf8(bytes)))
    } else {
        bytes
    }
}

/// Whether one of the bytes is zero.
fn has_zero(bytes: &Vec<u8>) -> (r: bool)
    ensures
        r == bytes@.contains(0u8),
{
    let mut i: usize = 0;
    while i < bytes.len()
        invariant
            i <= bytes.len(),
            forall|k: int| 0 <= k < i ==> bytes@[k] != 0u8,
        decreases bytes.len() - i,
    {
        if bytes[i] == 0 {
            return true;
        }
        i += 1;
    }
    false
}

/// Renders the content of a file with the bindings of `context`. A binary
/// file comes back unchanged, whatever its bytes look like.
pub fn render_content(context: &Context, content: &Vec<u8>) -> (out: Vec<u8>)
    ensures
        out@ == render_bytes(context.bindings(), content@),
        !is_text(content@) ==> out@ == content@,
{
    broadcast use vstd::utf8::encode_utf8_decode_utf8;

    if has_zero(content) {
        return slice_to_vec(content.as_slice());
    }
    match utf8_text(content.as_slice()) {
        Some(text) => {
            assert(text@ == decode_utf8(content@)) by {
                assert(encode_utf8(text@) == content@);
            }
            let rendered = render_text(context, text);
            rendered.as_str().as_bytes_vec()
        },
        None => slice_to_vec(content.as_slice()),
    }
}

} // verus!
