//! What holds of the pieces of every text. They add up to its characters
//! without the whitespace, so that text rebuilt from its tokens tokenizes
//! to the same tokens; and each stands in the text where its line and its
//! columns say.

use vstd::prelude::*;
use crate::tokenize::{
    classify, column_of, fits, is_gap, is_symbol, line_of, models_of, part_at, part_end,
    part_starts, parts, pieces, plain_end, split_piece, split_pieces, word_at, word_end,
    word_starts, words, Piece, Token, TokenModel,
};

verus! {

/// The characters of `text[..n]` that are no gap, in order.
pub open spec fn solid(text: Seq<char>, n: int) -> Seq<char>
    decreases n,
{
    if n <= 0 {
        Seq::empty()
    } else if is_gap(text[n - 1]) {
        solid(text, n - 1)
    } else {
        solid(text, n - 1).push(text[n - 1])
    }
}

/// The contents of the pieces, one after the other.
pub open spec fn glue(ps: Seq<Piece>) -> Seq<char>
    decreases ps.len(),
{
    if ps.len() == 0 {
        Seq::empty()
    } else {
        glue(ps.drop_last()) + ps.last().content
    }
}

/// The contents of the tokens, one after the other.
pub open spec fn joined(tokens: Seq<TokenModel>) -> Seq<char>
    decreases tokens.len(),
{
    if tokens.len() == 0 {
        Seq::empty()
    } else {
        joined(tokens.drop_last()) + tokens.last().kind.content()
    }
}

proof fn lemma_glue_push(a: Seq<Piece>, p: Piece)
    ensures
        glue(a.push(p)) == glue(a) + p.content,
{
    assert(a.push(p).drop_last() =~= a);
}

proof fn lemma_glue_add(a: Seq<Piece>, b: Seq<Piece>)
    ensures
        glue(a + b) == glue(a) + glue(b),
    decreases b.len(),
{
    if b.len() == 0 {
        assert(a + b =~= a);
        assert(glue(a) + glue(b) =~= glue(a));
    } else {
        lemma_glue_add(a, b.drop_last());
        assert((a + b).drop_last() =~= a + b.drop_last());
        assert((a + b).last() == b.last());
        assert(glue(a + b) =~= glue(a) + glue(b));
    }
}

proof fn lemma_word_end_bounds(text: Seq<char>, i: int)
    requires
        0 <= i <= text.len(),
    ensures
        i <= word_end(text, i) <= text.len(),
        forall|k: int| i <= k < word_end(text, i) ==> !is_gap(#[trigger] text[k]),
        word_end(text, i) == text.len() || is_gap(text[word_end(text, i)]),
    decreases text.len() - i,
{
    if i < text.len() && !is_gap(text[i]) {
        lemma_word_end_bounds(text, i + 1);
    }
}

proof fn lemma_solid_run(text: Seq<char>, i: int, e: int)
    requires
        0 <= i <= e <= text.len(),
        forall|k: int| i <= k < e ==> !is_gap(#[trigger] text[k]),
    ensures
        solid(text, e) == solid(text, i) + text.subrange(i, e),
    decreases e - i,
{
    if i < e {
        lemma_solid_run(text, i, e - 1);
        assert(text.subrange(i, e) =~= text.subrange(i, e - 1).push(text[e - 1]));
        assert(solid(text, e) =~= solid(text, i) + text.subrange(i, e));
    } else {
        assert(solid(text, e) =~= solid(text, i) + text.subrange(i, e));
    }
}

/// How far the words that begin before `n` reach.
spec fn words_reach(text: Seq<char>, n: int) -> int {
    if n <= 0 || is_gap(text[n - 1]) {
        n
    } else {
        word_end(text, n)
    }
}

proof fn lemma_words_glue(text: Seq<char>, n: int)
    requires
        0 <= n <= text.len(),
    ensures
        glue(words(text, n)) == solid(text, words_reach(text, n)),
        n <= words_reach(text, n) <= text.len(),
    decreases n,
{
    lemma_word_end_bounds(text, n);
    if n > 0 {
        lemma_words_glue(text, n - 1);
        lemma_word_end_bounds(text, n - 1);
        if is_gap(text[n - 1]) {
        } else if word_starts(text, n - 1) {
            let e = word_end(text, n - 1);
            lemma_glue_push(words(text, n - 1), word_at(text, n - 1));
            lemma_solid_run(text, n - 1, e);
        } else {
        }
    }
}

proof fn lemma_plain_end_bounds(c: Seq<char>, i: int)
    requires
        0 <= i <= c.len(),
    ensures
        i <= plain_end(c, i) <= c.len(),
    decreases c.len() - i,
{
    if i < c.len() && !is_symbol(c[i]) {
        lemma_plain_end_bounds(c, i + 1);
    }
}

/// How far the parts that begin before `n` reach.
spec fn parts_reach(c: Seq<char>, n: int) -> int {
    if n <= 0 || is_symbol(c[n - 1]) {
        n
    } else {
        plain_end(c, n)
    }
}

proof fn lemma_parts_glue(p: Piece, n: int)
    requires
        0 <= n <= p.content.len(),
    ensures
        glue(parts(p, n)) == p.content.subrange(0, parts_reach(p.content, n)),
        n <= parts_reach(p.content, n) <= p.content.len(),
    decreases n,
{
    let c = p.content;
    lemma_plain_end_bounds(c, n);
    if n > 0 {
        lemma_parts_glue(p, n - 1);
        lemma_plain_end_bounds(c, n - 1);
        if part_starts(c, n - 1) {
            let e = part_end(c, n - 1);
            lemma_glue_push(parts(p, n - 1), part_at(p, n - 1));
            assert(parts_reach(c, n - 1) == n - 1);
            assert(parts_reach(c, n) == e);
            assert(c.subrange(0, n - 1) + c.subrange(n - 1, e) =~= c.subrange(0, e));
        } else {
        }
    } else {
        assert(glue(parts(p, n)) =~= c.subrange(0, 0));
    }
}

proof fn lemma_split_piece_glue(p: Piece)
    ensures
        glue(split_piece(p)) == p.content,
{
    if p.content.len() <= 1 {
        lemma_glue_push(Seq::empty(), p);
        assert(seq![p] =~= Seq::<Piece>::empty().push(p));
        assert(glue(Seq::<Piece>::empty()) + p.content =~= p.content);
    } else {
        lemma_parts_glue(p, p.content.len() as int);
        assert(p.content.subrange(0, p.content.len() as int) =~= p.content);
    }
}

/// Cutting pieces at their symbols keeps what they add up to.
pub proof fn lemma_split_keeps_content(ps: Seq<Piece>)
    ensures
        glue(split_pieces(ps)) == glue(ps),
    decreases ps.len(),
{
    if ps.len() > 0 {
        lemma_split_keeps_content(ps.drop_last());
        lemma_split_piece_glue(ps.last());
        lemma_glue_add(split_pieces(ps.drop_last()), split_piece(ps.last()));
    }
}

/// The pieces of a text, read from left to right, are the characters of
/// the text that are no whitespace, in order.
pub proof fn lemma_pieces_rebuild(text: Seq<char>)
    ensures
        glue(pieces(text)) == solid(text, text.len() as int),
{
    lemma_words_glue(text, text.len() as int);
    lemma_word_end_bounds(text, text.len() as int);
    lemma_split_keeps_content(words(text, text.len() as int));
}

/// The content of every token is the content of the piece it was made of,
/// so the tokens of a text add up to what its pieces add up to.
pub proof fn lemma_tokens_rebuild(ps: Seq<Piece>, tokens: Seq<Token>)
    requires
        tokens.len() == ps.len(),
        forall|i: int| 0 <= i < ps.len() ==> fits(#[trigger] tokens[i], ps[i]),
    ensures
        joined(models_of(tokens)) == glue(ps),
    decreases ps.len(),
{
    if ps.len() > 0 {
        let n = ps.len() - 1;
        lemma_tokens_rebuild(ps.drop_last(), tokens.drop_last());
        assert(models_of(tokens).drop_last() =~= models_of(tokens.drop_last()));
        assert(fits(tokens[n], ps[n]));
        assert(classify(ps[n].content) == Some(tokens[n]@.kind));
        assert(tokens[n]@.kind.content() =~= ps[n].content);
    } else {
        assert(models_of(tokens) =~= Seq::empty());
    }
}

proof fn lemma_solid_holds_no_gap(text: Seq<char>, n: int)
    requires
        0 <= n <= text.len(),
    ensures
        forall|k: int| 0 <= k < solid(text, n).len() ==> !is_gap(#[trigger] solid(text, n)[k]),
    decreases n,
{
    if n > 0 {
        lemma_solid_holds_no_gap(text, n - 1);
        let s = solid(text, n);
        let shorter = solid(text, n - 1);
        assert forall|k: int| 0 <= k < s.len() implies !is_gap(#[trigger] s[k]) by {
            if k < shorter.len() {
                assert(!is_gap(shorter[k]));
            }
        }
    }
}

proof fn lemma_solid_of_gapless(text: Seq<char>, n: int)
    requires
        0 <= n <= text.len(),
        forall|k: int| 0 <= k < text.len() ==> !is_gap(#[trigger] text[k]),
    ensures
        solid(text, n) == text.subrange(0, n),
    decreases n,
{
    if n > 0 {
        lemma_solid_of_gapless(text, n - 1);
        assert(text.subrange(0, n) =~= text.subrange(0, n - 1).push(text[n - 1]));
    } else {
        assert(solid(text, n) =~= text.subrange(0, n));
    }
}

/// Text that was rebuilt from the pieces of any text is rebuilt to itself
/// from its own pieces: tokenizing it, gluing the contents and tokenizing
/// again starts from the same characters, and gives the same pieces.
pub proof fn lemma_rebuilt_text_is_fixed(text: Seq<char>)
    ensures
        glue(pieces(glue(pieces(text)))) == glue(pieces(text)),
        pieces(glue(pieces(glue(pieces(text))))) == pieces(glue(pieces(text))),
{
    let once = glue(pieces(text));
    lemma_pieces_rebuild(text);
    lemma_solid_holds_no_gap(text, text.len() as int);
    lemma_pieces_rebuild(once);
    lemma_solid_of_gapless(once, once.len() as int);
    assert(once.subrange(0, once.len() as int) =~= once);
}

/// A piece as the first pass leaves it: its columns cover its content,
/// which is not empty and holds no gap.
pub open spec fn is_word(p: Piece) -> bool {
    &&& p.wf()
    &&& p.content.len() > 0
    &&& forall|k: int| 0 <= k < p.content.len() ==> !is_gap(#[trigger] p.content[k])
}

/// A piece as the second pass leaves it: a word that is one character, or
/// holds no symbol.
pub open spec fn is_part(p: Piece) -> bool {
    &&& is_word(p)
    &&& p.content.len() == 1 || forall|k: int|
        0 <= k < p.content.len() ==> !is_symbol(#[trigger] p.content[k])
}

proof fn lemma_place_is_natural(text: Seq<char>, n: int)
    ensures
        0 <= line_of(text, n),
        0 <= column_of(text, n),
    decreases n,
{
    if n > 0 {
        lemma_place_is_natural(text, n - 1);
    }
}

proof fn lemma_words_are_words(text: Seq<char>, n: int)
    requires
        0 <= n <= text.len(),
    ensures
        forall|k: int| 0 <= k < words(text, n).len() ==> is_word(#[trigger] words(text, n)[k]),
    decreases n,
{
    if n > 0 {
        lemma_words_are_words(text, n - 1);
        if word_starts(text, n - 1) {
            lemma_place_is_natural(text, n - 1);
            lemma_word_end_bounds(text, n - 1);
            lemma_word_end_bounds(text, n);
            assert(is_word(word_at(text, n - 1)));
        }
        let earlier = words(text, n - 1);
        assert forall|k: int| 0 <= k < words(text, n).len() implies is_word(
            #[trigger] words(text, n)[k],
        ) by {
            if k < earlier.len() {
                assert(is_word(earlier[k]));
            }
        }
    }
}

proof fn lemma_plain_holds_no_symbol(c: Seq<char>, i: int)
    requires
        0 <= i <= c.len(),
    ensures
        forall|k: int| i <= k < plain_end(c, i) ==> !is_symbol(#[trigger] c[k]),
    decreases c.len() - i,
{
    if i < c.len() && !is_symbol(c[i]) {
        lemma_plain_holds_no_symbol(c, i + 1);
    }
}

proof fn lemma_parts_are_parts(p: Piece, n: int)
    requires
        is_word(p),
        0 <= n <= p.content.len(),
    ensures
        forall|k: int| 0 <= k < parts(p, n).len() ==> is_part(#[trigger] parts(p, n)[k]),
    decreases n,
{
    if n > 0 {
        lemma_parts_are_parts(p, n - 1);
        if part_starts(p.content, n - 1) {
            let c = p.content;
            let e = part_end(c, n - 1);
            lemma_plain_end_bounds(c, n - 1);
            lemma_plain_end_bounds(c, n);
            lemma_plain_holds_no_symbol(c, n - 1);
            let part = part_at(p, n - 1);
            assert(n - 1 < e <= c.len());
            assert forall|k: int| 0 <= k < part.content.len() implies !is_gap(
                #[trigger] part.content[k],
            ) by {
                assert(part.content[k] == c[n - 1 + k]);
            }
            if !is_symbol(c[n - 1]) {
                assert forall|k: int| 0 <= k < part.content.len() implies !is_symbol(
                    #[trigger] part.content[k],
                ) by {
                    assert(part.content[k] == c[n - 1 + k]);
                }
            }
            assert(is_part(part));
        }
        let earlier = parts(p, n - 1);
        assert forall|k: int| 0 <= k < parts(p, n).len() implies is_part(
            #[trigger] parts(p, n)[k],
        ) by {
            if k < earlier.len() {
                assert(is_part(earlier[k]));
            }
        }
    }
}

proof fn lemma_split_gives_parts(ps: Seq<Piece>)
    requires
        forall|k: int| 0 <= k < ps.len() ==> is_word(#[trigger] ps[k]),
    ensures
        forall|k: int|
            0 <= k < split_pieces(ps).len() ==> is_part(#[trigger] split_pieces(ps)[k]),
    decreases ps.len(),
{
    if ps.len() > 0 {
        let p = ps.last();
        assert(is_word(p));
        lemma_split_gives_parts(ps.drop_last());
        if p.content.len() > 1 {
            lemma_parts_are_parts(p, p.content.len() as int);
        }
        let earlier = split_pieces(ps.drop_last());
        let cut = split_piece(p);
        assert forall|k: int| 0 <= k < split_pieces(ps).len() implies is_part(
            #[trigger] split_pieces(ps)[k],
        ) by {
            if k < earlier.len() {
                assert(is_part(earlier[k]));
            } else {
                assert(split_pieces(ps)[k] == cut[k - earlier.len()]);
                assert(is_part(cut[k - earlier.len()]));
            }
        }
    }
}

/// Every piece of a text covers as many columns as it has characters, at
/// least one; it holds no whitespace; and it is one symbol or holds none.
pub proof fn lemma_pieces_are_parts(text: Seq<char>)
    ensures
        forall|k: int| 0 <= k < pieces(text).len() ==> is_part(#[trigger] pieces(text)[k]),
{
    lemma_words_are_words(text, text.len() as int);
    lemma_split_gives_parts(words(text, text.len() as int));
}

/// The piece stands in the text at index `i`: its content is there, and
/// its line and first column are those of `i`.
pub open spec fn sits(text: Seq<char>, p: Piece, i: int) -> bool {
    &&& 0 <= i
    &&& i + p.content.len() <= text.len()
    &&& text.subrange(i, i + p.content.len()) == p.content
    &&& line_of(text, i) == p.line
    &&& column_of(text, i) == p.start
}

/// The piece stands somewhere in the text.
pub open spec fn stands(text: Seq<char>, p: Piece) -> bool {
    exists|i: int| #[trigger] sits(text, p, i)
}

/// The piece is a part that stands somewhere in the text.
pub open spec fn placed(text: Seq<char>, p: Piece) -> bool {
    is_part(p) && stands(text, p)
}

proof fn lemma_same_line(text: Seq<char>, i: int, j: int)
    requires
        0 <= i <= j <= text.len(),
        forall|k: int| i <= k < j ==> !is_gap(#[trigger] text[k]),
    ensures
        line_of(text, j) == line_of(text, i),
        column_of(text, j) == column_of(text, i) + (j - i),
    decreases j - i,
{
    if i < j {
        lemma_same_line(text, i, j - 1);
        assert(!is_gap(text[j - 1]));
    }
}

proof fn lemma_words_sit(text: Seq<char>, n: int)
    requires
        0 <= n <= text.len(),
    ensures
        forall|k: int| 0 <= k < words(text, n).len() ==> stands(text, #[trigger] words(text, n)[k]),
    decreases n,
{
    if n > 0 {
        lemma_words_sit(text, n - 1);
        let earlier = words(text, n - 1);
        if word_starts(text, n - 1) {
            lemma_word_end_bounds(text, n - 1);
            assert(sits(text, word_at(text, n - 1), n - 1));
        }
        assert forall|k: int| 0 <= k < words(text, n).len() implies stands(
            text,
            #[trigger] words(text, n)[k],
        ) by {
            if k < earlier.len() {
                assert(stands(text, earlier[k]));
            } else {
                assert(sits(text, words(text, n)[k], n - 1));
            }
        }
    }
}

proof fn lemma_parts_sit(text: Seq<char>, p: Piece, at: int, n: int)
    requires
        is_word(p),
        sits(text, p, at),
        0 <= n <= p.content.len(),
    ensures
        forall|k: int| 0 <= k < parts(p, n).len() ==> stands(text, #[trigger] parts(p, n)[k]),
    decreases n,
{
    if n > 0 {
        lemma_parts_sit(text, p, at, n - 1);
        let earlier = parts(p, n - 1);
        let c = p.content;
        if part_starts(c, n - 1) {
            let part = part_at(p, n - 1);
            let e = part_end(c, n - 1);
            lemma_plain_end_bounds(c, n - 1);
            lemma_plain_end_bounds(c, n);
            assert forall|k: int| at <= k < at + n - 1 implies !is_gap(#[trigger] text[k]) by {
                assert(text.subrange(at, at + c.len())[k - at] == c[k - at]);
            }
            lemma_same_line(text, at, at + n - 1);
            let there = text.subrange(at + n - 1, at + e);
            let here = c.subrange(n - 1, e);
            assert forall|k: int| 0 <= k < here.len() implies #[trigger] there[k] == here[k] by {
                assert(text.subrange(at, at + c.len())[n - 1 + k] == c[n - 1 + k]);
            }
            assert(there =~= here);
            assert(sits(text, part, at + n - 1));
        }
        assert forall|k: int| 0 <= k < parts(p, n).len() implies stands(
            text,
            #[trigger] parts(p, n)[k],
        ) by {
            if k < earlier.len() {
                assert(stands(text, earlier[k]));
            } else {
                assert(sits(text, parts(p, n)[k], at + n - 1));
            }
        }
    }
}

proof fn lemma_split_sits(text: Seq<char>, ps: Seq<Piece>)
    requires
        forall|k: int| 0 <= k < ps.len() ==> is_word(#[trigger] ps[k]),
        forall|k: int| 0 <= k < ps.len() ==> stands(text, #[trigger] ps[k]),
    ensures
        forall|k: int|
            0 <= k < split_pieces(ps).len() ==> stands(text, #[trigger] split_pieces(ps)[k]),
    decreases ps.len(),
{
    if ps.len() > 0 {
        let p = ps.last();
        assert(is_word(p));
        assert(stands(text, p));
        let at = choose|i: int| sits(text, p, i);
        assert forall|k: int| 0 <= k < ps.drop_last().len() implies stands(
            text,
            #[trigger] ps.drop_last()[k],
        ) by {
            assert(stands(text, ps[k]));
        }
        lemma_split_sits(text, ps.drop_last());
        if p.content.len() > 1 {
            lemma_parts_sit(text, p, at, p.content.len() as int);
        }
        let earlier = split_pieces(ps.drop_last());
        let cut = split_piece(p);
        assert(stands(text, p));
        assert forall|k: int| 0 <= k < split_pieces(ps).len() implies stands(
            text,
            #[trigger] split_pieces(ps)[k],
        ) by {
            if k < earlier.len() {
                assert(stands(text, earlier[k]));
            } else {
                let q = cut[k - earlier.len()];
                assert(split_pieces(ps)[k] == q);
                assert(stands(text, q));
            }
        }
    }
}

/// Every piece of a text stands in the text: its content is found where
/// its line and columns say, none of it is whitespace, and so all of it
/// lies in one line.
pub proof fn lemma_pieces_are_placed(text: Seq<char>)
    ensures
        forall|k: int| 0 <= k < pieces(text).len() ==> placed(text, #[trigger] pieces(text)[k]),
{
    let n = text.len() as int;
    lemma_pieces_are_parts(text);
    lemma_words_are_words(text, n);
    lemma_words_sit(text, n);
    lemma_split_sits(text, words(text, n));
    assert forall|k: int| 0 <= k < pieces(text).len() implies placed(
        text,
        #[trigger] pieces(text)[k],
    ) by {
        let p = pieces(text)[k];
        assert(is_part(p));
        assert(stands(text, p));
    }
}

} // verus!
