//! Splitting source text into tokens: `(`, `)` and runs of other chars.
//!
//! The tokenizer counts its position in chars but bounds it by the length of
//! the text in bytes, and cuts tokens out of the text by byte offsets; on
//! ASCII text the two agree, and the tokens are exactly the text without its
//! whitespace, cut at parentheses.
use vstd::prelude::*;
use vstd::string::StringSliceAdditionalSpecFns;
use vstd::utf8::*;

verus! {

/// Whitespace separates tokens: a space or a newline.
pub open spec fn whitespace(c: char) -> bool {
    c == ' ' || c == '\n'
}

/// A char that ends a token: whitespace or a parenthesis.
pub open spec fn breaks(c: char) -> bool {
    whitespace(c) || c == '(' || c == ')'
}

fn is_whitespace(ch: char) -> (b: bool)
    ensures
        b == whitespace(ch),
{
    ch == ' ' || ch == '\n'
}

fn is_break(ch: char) -> (b: bool)
    ensures
        b == breaks(ch),
{
    is_whitespace(ch) || ch == '(' || ch == ')'
}

/// The length in bytes of the UTF-8 encoding of `text`.
pub open spec fn byte_len(text: Seq<char>) -> int {
    encode_utf8(text).len() as int
}

/// The position after skipping whitespace from `at`. A position counts
/// chars; it stops at the byte length of the text.
pub open spec fn skip_ws(text: Seq<char>, at: int) -> int
    decreases byte_len(text) - at,
{
    if at >= byte_len(text) {
        at
    } else if at >= text.len() {
        at + 1
    } else if whitespace(text[at]) {
        skip_ws(text, at + 1)
    } else {
        at
    }
}

/// The position where the token that starts at `pos` ends; `in_symbol` tells
/// whether a char of a symbol has been read already.
pub open spec fn scan_end(text: Seq<char>, pos: int, in_symbol: bool) -> int
    decreases byte_len(text) - pos,
{
    if pos >= byte_len(text) {
        pos
    } else if pos >= text.len() {
        pos + 1
    } else if breaks(text[pos]) {
        if in_symbol {
            pos
        } else {
            pos + 1
        }
    } else {
        scan_end(text, pos + 1, true)
    }
}

/// Where the next token from `at` starts.
pub open spec fn token_start(text: Seq<char>, at: int) -> int {
    skip_ws(text, at)
}

/// Where the next token from `at` ends; the tokenizer continues from there.
pub open spec fn token_end(text: Seq<char>, at: int) -> int {
    scan_end(text, token_start(text, at), false)
}

/// Whether the bytes between `start` and `end` form a slice of the text.
pub open spec fn slice_ok(text: Seq<char>, start: int, end: int) -> bool {
    start <= end && is_char_boundary(encode_utf8(text), start) && is_char_boundary(
        encode_utf8(text),
        end,
    )
}

/// The text of the bytes between `start` and `end`.
pub open spec fn slice_text(text: Seq<char>, start: int, end: int) -> Seq<char> {
    decode_utf8(encode_utf8(text).subrange(start, end))
}

/// The next token from `at`, if there is one.
pub open spec fn next_token(text: Seq<char>, at: int) -> Option<Seq<char>> {
    let start = token_start(text, at);
    let end = token_end(text, at);
    if start == end || !slice_ok(text, start, end) {
        None
    } else {
        Some(slice_text(text, start, end))
    }
}

/// All tokens from `at` on, up to the first position that yields none.
pub open spec fn tokens_from(text: Seq<char>, at: int) -> Seq<Seq<char>>
    decreases byte_len(text) - at,
{
    let end = token_end(text, at);
    if next_token(text, at) is Some && at < end && end <= byte_len(text) {
        seq![next_token(text, at).unwrap()] + tokens_from(text, end)
    } else {
        Seq::empty()
    }
}

/// The position of the tokenizer once it has yielded `None`.
pub open spec fn exhausted_at(text: Seq<char>, at: int) -> int
    decreases byte_len(text) - at,
{
    let end = token_end(text, at);
    if next_token(text, at) is Some && at < end && end <= byte_len(text) {
        exhausted_at(text, end)
    } else {
        end
    }
}

proof fn lemma_skip_ws_bounds(text: Seq<char>, at: int)
    requires
        0 <= at <= byte_len(text),
    ensures
        at <= skip_ws(text, at) <= byte_len(text),
    decreases byte_len(text) - at,
{
    if at < byte_len(text) && at < text.len() && whitespace(text[at]) {
        lemma_skip_ws_bounds(text, at + 1);
    }
}

proof fn lemma_scan_end_bounds(text: Seq<char>, pos: int, in_symbol: bool)
    requires
        0 <= pos <= byte_len(text),
    ensures
        pos <= scan_end(text, pos, in_symbol) <= byte_len(text),
        !in_symbol && pos < byte_len(text) ==> pos < scan_end(text, pos, in_symbol),
    decreases byte_len(text) - pos,
{
    if pos < byte_len(text) && pos < text.len() && !breaks(text[pos]) {
        lemma_scan_end_bounds(text, pos + 1, true);
    }
}

/// The next token from `at` starts after `at` and ends no later than the
/// end of the text; a token is yielded only when it is not empty.
pub proof fn lemma_token_bounds(text: Seq<char>, at: int)
    requires
        0 <= at <= byte_len(text),
    ensures
        at <= token_start(text, at) <= token_end(text, at) <= byte_len(text),
        next_token(text, at) is Some ==> at < token_end(text, at),
{
    lemma_skip_ws_bounds(text, at);
    lemma_scan_end_bounds(text, token_start(text, at), false);
}

/// The part of `s` between the byte offsets `start` and `end`, as
/// `str::get` with a byte range gives it: there exactly when `start <= end`
/// and both offsets lie on char boundaries of `s` (which includes being at
/// most its length in bytes).
fn str_get<'a>(s: &'a str, start: usize, end: usize) -> (r: Option<&'a str>)
    ensures
        r is Some <==> (start <= end && is_char_boundary(s.spec_bytes(), start as int)
            && is_char_boundary(s.spec_bytes(), end as int)),
        r matches Some(t) ==> t.spec_bytes() == s.spec_bytes().subrange(start as int, end as int),
{
    if start <= end && s.is_char_boundary(start) && s.is_char_boundary(end) {
        proof {
            encode_utf8_valid_utf8(s@);
        }
        let (head, _) = s.split_at(end);
        proof {
            let b = s.spec_bytes();
            let hb = head.spec_bytes();
            encode_utf8_valid_utf8(head@);
            assert(hb =~= b.subrange(0, end as int));
            is_char_boundary_start_end_of_seq(hb);
            if 0 < start < end {
                is_char_boundary_iff_not_is_continuation_byte(b, start as int);
                is_char_boundary_iff_not_is_continuation_byte(hb, start as int);
                assert(hb[start as int] == b[start as int]);
            }
        }
        let (_, mid) = head.split_at(start);
        proof {
            assert(mid.spec_bytes() =~= s.spec_bytes().subrange(start as int, end as int));
        }
        Some(mid)
    } else {
        None
    }
}

/// Splits a text into tokens.
pub struct Tokenizer<'a> {
    input: &'a str,
    input_at: usize,
}

impl<'a> Tokenizer<'a> {
    /// The text being split.
    pub open spec fn text(&self) -> Seq<char> {
        self.input()@
    }

    /// The position of the tokenizer, in chars.
    pub closed spec fn position(&self) -> int {
        self.input_at as int
    }

    /// The text being split, as a string slice.
    pub closed spec fn input(&self) -> &'a str {
        self.input
    }

    /// The position of a tokenizer never passes the byte length of its text.
    #[verifier::type_invariant]
    pub open spec fn wf(&self) -> bool {
        0 <= self.position() <= byte_len(self.text())
    }

    /// A tokenizer at the start of `input`.
    pub fn new(input: &'a str) -> (t: Tokenizer<'a>)
        ensures
            t.text() == input@,
            t.input() == input,
            t.position() == 0,
    {
        Tokenizer { input, input_at: 0 }
    }

    fn next_char(&mut self) -> (c: Option<char>)
        ensures
            final(self).text() == old(self).text(),
            final(self).input() == old(self).input(),
            c == (if old(self).position() < byte_len(old(self).text()) && old(
                self,
            ).position() < old(self).text().len() {
                Some(old(self).text()[old(self).position()])
            } else {
                None
            }),
            final(self).position() == (if old(self).position() < byte_len(old(self).text()) {
                old(self).position() + 1
            } else {
                old(self).position()
            }),
    {
        proof {
            use_type_invariant(&*self);
        }
        if self.input_at >= self.input.as_bytes().len() {
            None
        } else {
            let ch = if self.input_at < self.input.unicode_len() {
                Some(self.input.get_char(self.input_at))
            } else {
                None
            };
            self.input_at = self.input_at + 1;
            ch
        }
    }

    fn skip_whitespace(&mut self)
        ensures
            final(self).text() == old(self).text(),
            final(self).input() == old(self).input(),
            final(self).position() == skip_ws(old(self).text(), old(self).position()),
    {
        proof {
            use_type_invariant(&*self);
        }
        loop
            invariant
                self.text() == old(self).text(),
                self.input() == old(self).input(),
                0 <= self.position() <= byte_len(self.text()),
                skip_ws(self.text(), self.position()) == skip_ws(
                    old(self).text(),
                    old(self).position(),
                ),
            decreases byte_len(self.text()) - self.position(),
        {
            proof {
                use_type_invariant(&*self);
            }
            match self.next_char() {
                Some(ch) => {
                    if !is_whitespace(ch) {
                        self.input_at = self.input_at - 1;
                        return;
                    }
                },
                None => {
                    return;
                },
            }
        }
    }

    /// The next token, and the tokenizer moved past it; `None` when no token
    /// is left (or when the token would not be a slice of the text).
    pub fn next(&mut self) -> (r: Option<&'a str>)
        ensures
            final(self).text() == old(self).text(),
            final(self).input() == old(self).input(),
            final(self).position() == token_end(old(self).text(), old(self).position()),
            r is Some <==> next_token(old(self).text(), old(self).position()) is Some,
            r matches Some(t) ==> {
                &&& t@ == next_token(old(self).text(), old(self).position()).unwrap()
                &&& t.spec_bytes() == encode_utf8(old(self).text()).subrange(
                    token_start(old(self).text(), old(self).position()),
                    token_end(old(self).text(), old(self).position()),
                )
            },
    {
        self.skip_whitespace();
        proof {
            use_type_invariant(&*self);
        }
        let start = self.input_at;
        let mut is_symbol = false;
        loop
            invariant_except_break
                scan_end(self.text(), self.position(), is_symbol) == scan_end(
                    self.text(),
                    start as int,
                    false,
                ),
            invariant
                self.text() == old(self).text(),
                self.input() == old(self).input(),
                start == token_start(old(self).text(), old(self).position()),
                0 <= start <= self.position() <= byte_len(self.text()),
            ensures
                self.position() == scan_end(self.text(), start as int, false),
            decreases byte_len(self.text()) - self.position(),
        {
            proof {
                use_type_invariant(&*self);
            }
            match self.next_char() {
                Some(ch) => {
                    if is_break(ch) {
                        if is_symbol {
                            self.input_at = self.input_at - 1;
                        }
                        break ;
                    } else {
                        is_symbol = true;
                    }
                },
                None => {
                    break ;
                },
            }
        }
        let end = self.input_at;
        if start == end {
            None
        } else {
            proof {
                use_type_invariant(&*self);
            }
            let r = str_get(self.input, start, end);
            proof {
                if let Some(t) = r {
                    encode_utf8_decode_utf8(t@);
                }
            }
            r
        }
    }
}

/// The chars of `s` that are not whitespace, in order.
pub open spec fn without_whitespace(s: Seq<char>) -> Seq<char>
    decreases s.len(),
{
    if s.len() == 0 {
        Seq::empty()
    } else {
        (if whitespace(s[0]) {
            Seq::empty()
        } else {
            seq![s[0]]
        }) + without_whitespace(s.drop_first())
    }
}

/// Whether `tok` has the shape of a token: a parenthesis, or a run of one
/// or more chars none of which ends a token.
pub open spec fn token_shape(tok: Seq<char>) -> bool {
    tok == seq!['('] || tok == seq![')'] || (tok.len() > 0 && forall|i: int|
        0 <= i < tok.len() ==> !breaks(#[trigger] tok[i]))
}

proof fn lemma_without_whitespace_concat(a: Seq<char>, b: Seq<char>)
    ensures
        without_whitespace(a + b) == without_whitespace(a) + without_whitespace(b),
    decreases a.len(),
{
    if a.len() == 0 {
        assert(a + b =~= b);
    } else {
        lemma_without_whitespace_concat(a.drop_first(), b);
        assert((a + b).drop_first() =~= a.drop_first() + b);
        assert((a + b)[0] == a[0]);
    }
}

proof fn lemma_without_whitespace_all_ws(a: Seq<char>)
    requires
        forall|i: int| 0 <= i < a.len() ==> whitespace(#[trigger] a[i]),
    ensures
        without_whitespace(a) == Seq::<char>::empty(),
    decreases a.len(),
{
    if a.len() > 0 {
        assert(whitespace(a[0]));
        assert forall|i: int| 0 <= i < a.drop_first().len() implies whitespace(
            #[trigger] a.drop_first()[i],
        ) by {
            assert(a.drop_first()[i] == a[i + 1]);
        }
        lemma_without_whitespace_all_ws(a.drop_first());
    }
}

proof fn lemma_without_whitespace_no_ws(a: Seq<char>)
    requires
        forall|i: int| 0 <= i < a.len() ==> !whitespace(#[trigger] a[i]),
    ensures
        without_whitespace(a) == a,
    decreases a.len(),
{
    if a.len() > 0 {
        assert(!whitespace(a[0]));
        assert forall|i: int| 0 <= i < a.drop_first().len() implies !whitespace(
            #[trigger] a.drop_first()[i],
        ) by {
            assert(a.drop_first()[i] == a[i + 1]);
        }
        lemma_without_whitespace_no_ws(a.drop_first());
        assert(seq![a[0]] + a.drop_first() =~= a);
    }
}

proof fn lemma_ascii_bytes(text: Seq<char>)
    requires
        is_ascii_chars(text),
    ensures
        byte_len(text) == text.len(),
        forall|i: int| 0 <= i <= text.len() ==> is_char_boundary(encode_utf8(text), i),
        forall|s: int, e: int|
            0 <= s <= e <= text.len() ==> #[trigger] slice_text(text, s, e) == text.subrange(s, e),
{
    is_ascii_chars_encode_utf8(text);
    encode_utf8_valid_utf8(text);
    let bytes = encode_utf8(text);
    assert forall|i: int| 0 <= i <= text.len() implies is_char_boundary(bytes, i) by {
        if i == text.len() {
            is_char_boundary_start_end_of_seq(bytes);
        } else {
            is_char_boundary_iff_not_is_continuation_byte(bytes, i);
            assert('\0' <= text[i] <= '\u{7f}');
            assert(text[i] as u8 == bytes[i]);
            let c = text[i] as u32;
            assert(c <= 0x7f);
            assert((c as u8) <= 0x7f) by (bit_vector)
                requires
                    c <= 0x7f,
            ;
            assert(text[i] as u8 == (text[i] as u32) as u8);
        }
    }
    assert forall|s: int, e: int| 0 <= s <= e <= text.len() implies #[trigger] slice_text(
        text,
        s,
        e,
    ) == text.subrange(s, e) by {
        let sub = text.subrange(s, e);
        assert(is_ascii_chars(sub)) by {
            assert forall|i: int| 0 <= i < sub.len() implies '\0' <= #[trigger] sub[i] <= '\u{7f}' by {
                assert(sub[i] == text[s + i]);
            }
        }
        is_ascii_chars_encode_utf8(sub);
        assert(encode_utf8(sub) =~= bytes.subrange(s, e)) by {
            assert forall|i: int| 0 <= i < sub.len() implies #[trigger] encode_utf8(sub)[i]
                == bytes.subrange(s, e)[i] by {
                assert(sub[i] == text[s + i]);
            }
        }
        encode_utf8_decode_utf8(sub);
    }
}

proof fn lemma_skip_ws_ascii(text: Seq<char>, at: int)
    requires
        is_ascii_chars(text),
        byte_len(text) == text.len(),
        0 <= at <= text.len(),
    ensures
        at <= skip_ws(text, at) <= text.len(),
        forall|i: int| at <= i < skip_ws(text, at) ==> whitespace(#[trigger] text[i]),
        skip_ws(text, at) < text.len() ==> !whitespace(text[skip_ws(text, at)]),
    decreases text.len() - at,
{
    if at < text.len() && whitespace(text[at]) {
        lemma_skip_ws_ascii(text, at + 1);
    }
}

proof fn lemma_scan_symbol_ascii(text: Seq<char>, pos: int)
    requires
        byte_len(text) == text.len(),
        0 <= pos <= text.len(),
    ensures
        pos <= scan_end(text, pos, true) <= text.len(),
        forall|i: int| pos <= i < scan_end(text, pos, true) ==> !breaks(#[trigger] text[i]),
        scan_end(text, pos, true) < text.len() ==> breaks(text[scan_end(text, pos, true)]),
    decreases text.len() - pos,
{
    if pos < text.len() && !breaks(text[pos]) {
        lemma_scan_symbol_ascii(text, pos + 1);
    }
}

/// On ASCII text, the tokens from `at` on are exactly the text after `at`
/// without its whitespace, cut into parentheses and runs of other chars,
/// and the tokenizer stops at the end of the text.
pub proof fn lemma_ascii_tokens(text: Seq<char>, at: int)
    requires
        is_ascii_chars(text),
        0 <= at <= text.len(),
    ensures
        tokens_from(text, at).flatten() == without_whitespace(text.skip(at)),
        forall|k: int|
            0 <= k < tokens_from(text, at).len() ==> token_shape(#[trigger] tokens_from(text, at)[k]),
        exhausted_at(text, at) == text.len(),
    decreases text.len() - at,
{
    lemma_ascii_bytes(text);
    lemma_skip_ws_ascii(text, at);
    let start = token_start(text, at);
    let end = token_end(text, at);
    assert(text.skip(at) =~= text.subrange(at, start) + text.skip(start));
    lemma_without_whitespace_concat(text.subrange(at, start), text.skip(start));
    assert forall|i: int| 0 <= i < text.subrange(at, start).len() implies whitespace(
        #[trigger] text.subrange(at, start)[i],
    ) by {
        assert(text.subrange(at, start)[i] == text[at + i]);
    }
    lemma_without_whitespace_all_ws(text.subrange(at, start));
    if start == text.len() {
        assert(end == start);
        assert(text.skip(start).len() == 0);
        assert(without_whitespace(text.skip(start)) == Seq::<char>::empty());
        assert(tokens_from(text, at) == Seq::<Seq<char>>::empty());
        assert(without_whitespace(text.skip(at)) =~= Seq::<char>::empty());
    } else {
        let c = text[start];
        if breaks(c) {
            assert(end == start + 1);
        } else {
            lemma_scan_symbol_ascii(text, start + 1);
            assert(end == scan_end(text, start + 1, true));
        }
        let tok = text.subrange(start, end);
        assert(slice_ok(text, start, end));
        assert(slice_text(text, start, end) == tok);
        assert(next_token(text, at) == Some(tok));
        assert(tokens_from(text, at) == seq![tok] + tokens_from(text, end));
        lemma_ascii_tokens(text, end);
        assert(text.skip(start) =~= tok + text.skip(end));
        lemma_without_whitespace_concat(tok, text.skip(end));
        assert forall|i: int| 0 <= i < tok.len() implies !whitespace(#[trigger] tok[i]) by {
            assert(tok[i] == text[start + i]);
            if !breaks(c) {
                assert(!breaks(text[start + i]));
            }
        }
        lemma_without_whitespace_no_ws(tok);
        assert(token_shape(tok)) by {
            if breaks(c) {
                assert(tok =~= seq![c]);
            } else {
                assert forall|i: int| 0 <= i < tok.len() implies !breaks(#[trigger] tok[i]) by {
                    assert(tok[i] == text[start + i]);
                }
            }
        }
        let rest = tokens_from(text, end);
        assert((seq![tok] + rest).drop_first() =~= rest);
        assert((seq![tok] + rest).first() == tok);
        assert forall|k: int| 0 <= k < tokens_from(text, at).len() implies token_shape(
            #[trigger] tokens_from(text, at)[k],
        ) by {
            if k > 0 {
                assert(tokens_from(text, at)[k] == rest[k - 1]);
            }
        }
    }
}

/// Whether a token is a parenthesis.
pub open spec fn is_paren(tok: Seq<char>) -> bool {
    tok == seq!['('] || tok == seq![')']
}

/// The runs of text before each token from `at` on, and the run after the
/// last one.
pub open spec fn gaps(text: Seq<char>, at: int) -> Seq<Seq<char>>
    decreases byte_len(text) - at,
{
    let end = token_end(text, at);
    let gap = text.subrange(at, token_start(text, at));
    if next_token(text, at) is Some && at < end && end <= byte_len(text) {
        seq![gap] + gaps(text, end)
    } else {
        seq![gap]
    }
}

/// The text made of `ws[0]`, `toks[0]`, `ws[1]`, `toks[1]`, ..., and the last
/// run of `ws`.
pub open spec fn interleave(ws: Seq<Seq<char>>, toks: Seq<Seq<char>>) -> Seq<char>
    decreases toks.len(),
{
    if toks.len() == 0 {
        if ws.len() == 0 {
            Seq::empty()
        } else {
            ws[0]
        }
    } else {
        ws[0] + toks[0] + interleave(ws.drop_first(), toks.drop_first())
    }
}

/// On ASCII text, the text from `at` on is its tokens with runs of
/// whitespace around them, one run before each token and one after the
/// last; the run between two tokens neither of which is a parenthesis is
/// never empty.
pub proof fn lemma_ascii_token_gaps(text: Seq<char>, at: int)
    requires
        is_ascii_chars(text),
        0 <= at <= text.len(),
    ensures
        gaps(text, at).len() == tokens_from(text, at).len() + 1,
        text.skip(at) == interleave(gaps(text, at), tokens_from(text, at)),
        forall|k: int|
            0 <= k < gaps(text, at).len() ==> forall|i: int|
                0 <= i < (#[trigger] gaps(text, at)[k]).len() ==> whitespace(gaps(text, at)[k][i]),
        forall|k: int|
            0 < k < tokens_from(text, at).len() && !is_paren(tokens_from(text, at)[k - 1])
                && !is_paren(#[trigger] tokens_from(text, at)[k]) ==> gaps(text, at)[k].len() > 0,
    decreases text.len() - at,
{
    lemma_ascii_bytes(text);
    lemma_skip_ws_ascii(text, at);
    let start = token_start(text, at);
    let end = token_end(text, at);
    let gap = text.subrange(at, start);
    assert forall|i: int| 0 <= i < gap.len() implies whitespace(#[trigger] gap[i]) by {
        assert(gap[i] == text[at + i]);
    }
    if start == text.len() {
        assert(end == start);
        assert(tokens_from(text, at) == Seq::<Seq<char>>::empty());
        assert(gaps(text, at) == seq![gap]);
        assert(text.skip(at) =~= gap);
    } else {
        let c = text[start];
        if breaks(c) {
            assert(end == start + 1);
        } else {
            lemma_scan_symbol_ascii(text, start + 1);
            assert(end == scan_end(text, start + 1, true));
        }
        let tok = text.subrange(start, end);
        assert(slice_ok(text, start, end));
        assert(slice_text(text, start, end) == tok);
        assert(next_token(text, at) == Some(tok));
        let toks = tokens_from(text, at);
        let ws = gaps(text, at);
        let rest = tokens_from(text, end);
        let rws = gaps(text, end);
        assert(toks == seq![tok] + rest);
        assert(ws == seq![gap] + rws);
        lemma_ascii_token_gaps(text, end);
        assert(toks.drop_first() =~= rest);
        assert(ws.drop_first() =~= rws);
        assert(text.skip(at) =~= gap + tok + text.skip(end));
        assert forall|k: int| 0 <= k < ws.len() implies forall|i: int|
            0 <= i < (#[trigger] ws[k]).len() ==> whitespace(ws[k][i]) by {
            if k > 0 {
                assert(ws[k] == rws[k - 1]);
            }
        }
        assert forall|k: int|
            0 < k < toks.len() && !is_paren(toks[k - 1]) && !is_paren(
                #[trigger] toks[k],
            ) implies ws[k].len() > 0 by {
            assert(ws[k] == rws[k - 1]);
            assert(toks[k] == rest[k - 1]);
            if k == 1 {
                // The token before is a run of chars that no break ends
                // until `end`; the char there is a break, and not a
                // parenthesis, since that would be the next token.
                assert(!is_paren(tok));
                assert(!breaks(c)) by {
                    if breaks(c) {
                        assert(tok =~= seq![c]);
                    }
                }
                lemma_skip_ws_ascii(text, end);
                let start2 = token_start(text, end);
                assert(rest.len() > 0);
                if start2 == end {
                    assert(end < text.len());
                    assert(breaks(text[end]));
                    assert(!whitespace(text[end]));
                    assert(token_end(text, end) == end + 1);
                    assert(rest[0] == text.subrange(end, end + 1));
                    assert(text.subrange(end, end + 1) =~= seq![text[end]]);
                    assert(false);
                }
                assert(rws[0] == text.subrange(end, start2));
            } else {
                assert(toks[k - 1] == rest[k - 2]);
            }
        }
    }
}

/// On ASCII text, once the tokenizer yields `None` it stays where it is and
/// keeps yielding `None`; before that it yields at most one token per char
/// of the text.
pub proof fn lemma_ascii_exhausted(text: Seq<char>, at: int)
    requires
        is_ascii_chars(text),
        0 <= at <= text.len(),
    ensures
        next_token(text, at) is None ==> ({
            let e = token_end(text, at);
            &&& next_token(text, e) is None
            &&& token_end(text, e) == e
        }),
        tokens_from(text, at).len() <= text.len() - at,
    decreases text.len() - at,
{
    lemma_ascii_bytes(text);
    lemma_skip_ws_ascii(text, at);
    let start = token_start(text, at);
    let end = token_end(text, at);
    if start == text.len() {
        assert(end == start);
        lemma_skip_ws_ascii(text, end);
        assert(tokens_from(text, at) == Seq::<Seq<char>>::empty());
    } else {
        let c = text[start];
        if breaks(c) {
            assert(end == start + 1);
        } else {
            lemma_scan_symbol_ascii(text, start + 1);
            assert(end == scan_end(text, start + 1, true));
        }
        assert(slice_ok(text, start, end));
        assert(next_token(text, at) is Some);
        lemma_ascii_exhausted(text, end);
        assert(tokens_from(text, at) == seq![next_token(text, at).unwrap()] + tokens_from(text, end));
    }
}

} // verus!
