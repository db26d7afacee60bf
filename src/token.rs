use vstd::prelude::*;
use vstd::std_specs::iter::IteratorSpec;
use vstd::utf8::*;

verus! {

/// Whether a token is a word to index or a punctuation mark.
#[derive(Debug, Clone, PartialEq)]
pub enum TokenKind {
    Term(String),
    Punct(String),
}

/// One token of a text: its kind and text, where it starts (in bytes), how
/// long it is (in bytes), and its word position.
#[derive(Debug, Clone, PartialEq)]
pub struct Token {
    pub kind: TokenKind,
    pub offset: usize,
    pub length: usize,
    pub position: usize,
}

/// The mathematical content of a token.
pub struct TokenModel {
    pub is_term: bool,
    pub text: Seq<char>,
    pub offset: nat,
    pub length: nat,
    pub position: nat,
}

impl View for Token {
    type V = TokenModel;

    open spec fn view(&self) -> TokenModel {
        TokenModel {
            is_term: self.kind is Term,
            text: match self.kind {
                TokenKind::Term(s) => s@,
                TokenKind::Punct(s) => s@,
            },
            offset: self.offset as nat,
            length: self.length as nat,
            position: self.position as nat,
        }
    }
}

/// The token models of a token sequence.
pub open spec fn token_models(v: Seq<Token>) -> Seq<TokenModel> {
    v.map_values(|t: Token| t@)
}

/// Number of bytes in the UTF-8 encoding of `s`.
pub open spec fn byte_len(s: Seq<char>) -> nat {
    encode_utf8(s).len()
}

/// Number of bytes in the UTF-8 encoding of `c`.
pub open spec fn char_width(c: char) -> nat {
    encode_scalar(c as u32).len()
}

pub open spec fn term_model(text: Seq<char>, offset: nat, position: nat) -> TokenModel {
    TokenModel { is_term: true, text, offset, length: byte_len(text), position }
}

pub open spec fn punct_model(text: Seq<char>, offset: nat, position: nat) -> TokenModel {
    TokenModel { is_term: false, text, offset, length: byte_len(text), position }
}

impl Token {
    pub fn new_term(term: &str, offset: usize, position: usize) -> (r: Token)
        ensures
            r@ == term_model(term@, offset as nat, position as nat),
    {
        Token { kind: TokenKind::Term(term.to_owned()), offset, length: term.as_bytes().len(), position }
    }

    pub fn new_punct(punct: &str, offset: usize, position: usize) -> (r: Token)
        ensures
            r@ == punct_model(punct@, offset as nat, position as nat),
    {
        Token { kind: TokenKind::Punct(punct.to_owned()), offset, length: punct.as_bytes().len(), position }
    }
}

/// The strategy that splits a text into tokens.
#[derive(Debug, Clone, Copy, PartialEq, Eq)]
pub enum TokenizeType {
    Whitespace,
    Japanese,
}

impl Default for TokenizeType {
    fn default() -> (r: TokenizeType)
        ensures
            r == TokenizeType::Whitespace,
    {
        TokenizeType::Whitespace
    }
}

/// Whether `c` has the Unicode White_Space property.
pub uninterp spec fn is_white_space(c: char) -> bool;

/// Relies on char::is_whitespace: true exactly for the characters with the
/// Unicode White_Space property, which depends on the character alone.
#[verifier::external_body]
fn char_is_whitespace(c: char) -> (r: bool)
    ensures
        r == is_white_space(c),
{
    c.is_whitespace()
}

/// Relies on String::push: appends `c` to the end of `s`.
#[verifier::external_body]
fn push_char(s: &mut String, c: char)
    ensures
        final(s)@ == old(s)@.push(c),
{
    s.push(c)
}

/// The ASCII punctuation characters: `!` to `/`, `:` to `@`, `[` to `` ` ``,
/// and `{` to `~`.
pub open spec fn is_ascii_punct(c: char) -> bool {
    let u = c as u32;
    (0x21 <= u <= 0x2F) || (0x3A <= u <= 0x40) || (0x5B <= u <= 0x60) || (0x7B <= u <= 0x7E)
}

fn ascii_punct(c: char) -> (r: bool)
    ensures
        r == is_ascii_punct(c),
{
    let u = c as u32;
    (0x21 <= u && u <= 0x2F) || (0x3A <= u && u <= 0x40) || (0x5B <= u && u <= 0x60) || (0x7B <= u
        && u <= 0x7E)
}

fn utf8_width(c: char) -> (r: usize)
    ensures
        r == char_width(c),
        1 <= r <= 4,
{
    let u = c as u32;
    proof {
        char_is_scalar(c);
    }
    if u < 0x80 {
        1
    } else if u < 0x800 {
        2
    } else if u < 0x10000 {
        3
    } else {
        4
    }
}

/// The UTF-8 encoding of a concatenation is the concatenation of the encodings.
pub proof fn lemma_encode_concat(a: Seq<char>, b: Seq<char>)
    ensures
        encode_utf8(a + b) == encode_utf8(a) + encode_utf8(b),
    decreases a.len(),
{
    if a.len() == 0 {
        assert(a + b =~= b);
        assert(encode_utf8(a) =~= Seq::<u8>::empty());
        assert(encode_utf8(a) + encode_utf8(b) =~= encode_utf8(b));
    } else {
        assert((a + b).drop_first() =~= a.drop_first() + b);
        lemma_encode_concat(a.drop_first(), b);
        assert((a + b)[0] == a[0]);
        assert(encode_utf8(a + b) =~= encode_scalar(a[0] as u32) + encode_utf8(a.drop_first() + b));
        assert(encode_utf8(a) + encode_utf8(b) =~= encode_scalar(a[0] as u32) + (encode_utf8(
            a.drop_first(),
        ) + encode_utf8(b)));
    }
}

pub proof fn lemma_byte_len_push(s: Seq<char>, c: char)
    ensures
        byte_len(s.push(c)) == byte_len(s) + char_width(c),
{
    lemma_encode_concat(s, seq![c]);
    assert(s.push(c) =~= s + seq![c]);
    assert(seq![c].drop_first() =~= Seq::<char>::empty());
    assert(encode_utf8(seq![c]) =~= encode_scalar(c as u32) + encode_utf8(Seq::<char>::empty()));
}

/// The state of the whitespace scan after a prefix of the text: the tokens
/// emitted, the characters of the word being read, the bytes consumed and
/// the next word position.
pub struct ScanState {
    pub tokens: Seq<TokenModel>,
    pub pending: Seq<char>,
    pub offset: nat,
    pub position: nat,
}

/// The term token for the word being read, which ends at the scan's offset.
pub open spec fn pending_term(st: ScanState) -> TokenModel {
    term_model(st.pending, (st.offset - byte_len(st.pending)) as nat, st.position)
}

/// One step of the scan over character `c`, which is whitespace when
/// `space` holds. Whitespace ends a non-empty word;
/// an ASCII punctuation mark ends the word (even an empty one) and is a token
/// of its own; any other character extends the word. Every character
/// advances the offset by its width.
pub open spec fn scan_step(st: ScanState, c: char, space: bool) -> ScanState {
    let offset = st.offset + char_width(c);
    if space {
        if st.pending.len() > 0 {
            ScanState {
                tokens: st.tokens.push(pending_term(st)),
                pending: Seq::empty(),
                offset,
                position: st.position + 1,
            }
        } else {
            ScanState { offset, ..st }
        }
    } else if is_ascii_punct(c) {
        ScanState {
            tokens: st.tokens.push(pending_term(st)).push(
                punct_model(seq![c], st.offset, st.position + 1),
            ),
            pending: Seq::empty(),
            offset,
            position: st.position + 2,
        }
    } else {
        ScanState { pending: st.pending.push(c), offset, ..st }
    }
}

/// The scan of `s`, where `sp[i]` tells whether `s[i]` is whitespace.
pub open spec fn scan(s: Seq<char>, sp: Seq<bool>) -> ScanState
    decreases s.len(),
{
    if s.len() == 0 {
        ScanState { tokens: Seq::empty(), pending: Seq::empty(), offset: 0, position: 0 }
    } else {
        scan_step(scan(s.drop_last(), sp.drop_last()), s.last(), sp.last())
    }
}

/// The tokens of `s` split at the characters that `sp` marks as whitespace
/// and at ASCII punctuation: the scan's tokens, then the last word if one is
/// left.
pub open spec fn split_tokens(s: Seq<char>, sp: Seq<bool>) -> Seq<TokenModel> {
    let st = scan(s, sp);
    if st.pending.len() > 0 {
        st.tokens.push(pending_term(st))
    } else {
        st.tokens
    }
}

/// Which characters of `s` have the Unicode White_Space property.
pub open spec fn white_space_flags(s: Seq<char>) -> Seq<bool> {
    Seq::new(s.len(), |i: int| is_white_space(s[i]))
}

/// The tokens of `s` under the whitespace strategy.
pub open spec fn whitespace_tokens(s: Seq<char>) -> Seq<TokenModel> {
    split_tokens(s, white_space_flags(s))
}

/// Facts of the scan that the tokenizer's loop relies on.
proof fn lemma_scan_facts(s: Seq<char>, sp: Seq<bool>)
    ensures
        scan(s, sp).offset == byte_len(s),
        scan(s, sp).pending.len() <= s.len(),
        scan(s, sp).pending == s.subrange(s.len() - scan(s, sp).pending.len(), s.len() as int),
        scan(s, sp).position <= 2 * s.len(),
    decreases s.len(),
{
    if s.len() == 0 {
        assert(encode_utf8(s) =~= Seq::<u8>::empty());
        assert(s.subrange(0, 0) =~= Seq::<char>::empty());
    } else {
        let p = s.drop_last();
        lemma_scan_facts(p, sp.drop_last());
        lemma_byte_len_push(p, s.last());
        assert(s =~= p.push(s.last()));
        let st = scan(p, sp.drop_last());
        if !sp.last() && !is_ascii_punct(s.last()) {
            assert(st.pending.push(s.last()) =~= s.subrange(
                s.len() - st.pending.len() - 1,
                s.len() as int,
            ));
        } else {
            assert(s.subrange(s.len() as int, s.len() as int) =~= Seq::<char>::empty());
        }
    }
}

/// The bytes of a suffix are no more than the bytes of the whole.
proof fn lemma_suffix_bytes(s: Seq<char>, k: int)
    requires
        0 <= k <= s.len(),
    ensures
        byte_len(s.subrange(k, s.len() as int)) <= byte_len(s),
{
    lemma_encode_concat(s.subrange(0, k), s.subrange(k, s.len() as int));
    assert(s =~= s.subrange(0, k) + s.subrange(k, s.len() as int));
}

/// Each character takes at least one byte.
proof fn lemma_byte_len_at_least(s: Seq<char>)
    ensures
        byte_len(s) >= s.len(),
    decreases s.len(),
{
    if s.len() > 0 {
        lemma_byte_len_at_least(s.drop_first());
    }
}

/// The bytes of a prefix are no more than the bytes of the whole.
proof fn lemma_prefix_bytes(s: Seq<char>, k: int)
    requires
        0 <= k <= s.len(),
    ensures
        byte_len(s.take(k)) <= byte_len(s),
{
    lemma_encode_concat(s.take(k), s.subrange(k, s.len() as int));
    assert(s =~= s.take(k) + s.subrange(k, s.len() as int));
}

/// Splits `sentence` into tokens at the characters that `spaces` marks as
/// whitespace (`spaces[i]` for the `i`-th character) and at ASCII
/// punctuation.
///
/// Positions count words and punctuation marks, so that a punctuation mark
/// takes a position of its own; offsets and lengths are in bytes.
pub fn split_tokens_at(sentence: &str, spaces: &Vec<bool>) -> (r: Vec<Token>)
    requires
        sentence@.len() <= isize::MAX,
        spaces@.len() == sentence@.len(),
    ensures
        token_models(r@) == split_tokens(sentence@, spaces@),
{
    let ghost s = sentence@;
    let ghost sp = spaces@;
    let n_bytes = sentence.as_bytes().len();
    let mut tokens: Vec<Token> = Vec::new();
    let mut pending = String::new();
    let mut length: usize = 0;
    let mut base_offset: usize = 0;
    let mut word_count: usize = 0;
    let mut chars = sentence.chars();
    let mut i: usize = 0;
    proof {
        assert(s.skip(0) =~= s);
        assert(s.take(0) =~= Seq::<char>::empty());
        assert(sp.take(0) =~= Seq::<bool>::empty());
        assert(token_models(tokens@) =~= Seq::<TokenModel>::empty());
        assert(encode_utf8(Seq::<char>::empty()) =~= Seq::<u8>::empty());
    }
    loop
        invariant
            s == sentence@,
            sp == spaces@,
            sp.len() == s.len(),
            s.len() <= isize::MAX,
            n_bytes == byte_len(s),
            0 <= i <= s.len(),
            chars.remaining() == s.skip(i as int),
            token_models(tokens@) == scan(s.take(i as int), sp.take(i as int)).tokens,
            pending@ == scan(s.take(i as int), sp.take(i as int)).pending,
            base_offset == scan(s.take(i as int), sp.take(i as int)).offset,
            word_count == scan(s.take(i as int), sp.take(i as int)).position,
            length == byte_len(pending@),
        ensures
            s.take(i as int) == s,
            sp.take(i as int) == sp,
            n_bytes == byte_len(s),
            token_models(tokens@) == scan(s, sp).tokens,
            pending@ == scan(s, sp).pending,
            base_offset == scan(s, sp).offset,
            word_count == scan(s, sp).position,
            length == byte_len(pending@),
        decreases s.len() - i,
    {
        let next = chars.next();
        match next {
            None => {
                proof {
                    assert(s.skip(i as int).len() == 0);
                    assert(s.take(i as int) =~= s);
                    assert(sp.take(i as int) =~= sp);
                }
                break;
            },
            Some(c) => {
                let ghost pre = s.take(i as int);
                proof {
                    assert(s.skip(i as int).len() > 0);
                    assert(c == s[i as int]);
                    assert(s.skip(i + 1) =~= s.skip(i as int).drop_first());
                    assert(sp.take(i + 1).drop_last() =~= sp.take(i as int));
                    assert(sp.take(i + 1).last() == sp[i as int]);
                    assert(s.take(i + 1).drop_last() =~= pre);
                    assert(s.take(i + 1).last() == c);
                    lemma_scan_facts(pre, sp.take(i as int));
                    lemma_scan_facts(s.take(i + 1), sp.take(i + 1));
                    lemma_prefix_bytes(s, i + 1);
                    lemma_byte_len_push(pre, c);
                    lemma_suffix_bytes(pre, pre.len() - pending@.len());
                    lemma_byte_len_at_least(pending@);
                    assert(pre.push(c) =~= s.take(i + 1));
                }
                let w = utf8_width(c);
                if spaces[i] {
                    if length > 0 {
                        let t = Token::new_term(pending.as_str(), base_offset - length, word_count);
                        tokens.push(t);
                        pending = String::new();
                        length = 0;
                        word_count = word_count + 1;
                    } else {
                        proof {
                            assert(pending@.len() == 0);
                        }
                    }
                    base_offset = base_offset + w;
                } else if ascii_punct(c) {
                    let t = Token::new_term(pending.as_str(), base_offset - length, word_count);
                    tokens.push(t);
                    word_count = word_count + 1;
                    let mut mark = String::new();
                    push_char(&mut mark, c);
                    proof {
                        assert(mark@ =~= seq![c]);
                    }
                    let p = Token::new_punct(mark.as_str(), base_offset, word_count);
                    tokens.push(p);
                    pending = String::new();
                    length = 0;
                    word_count = word_count + 1;
                    base_offset = base_offset + w;
                } else {
                    let ghost old_pending = pending@;
                    push_char(&mut pending, c);
                    proof {
                        lemma_byte_len_push(old_pending, c);
                    }
                    length = length + w;
                    base_offset = base_offset + w;
                }
                i = i + 1;
            },
        }
    }
    proof {
        lemma_scan_facts(s, sp);
        lemma_suffix_bytes(s, s.len() - pending@.len());
        lemma_byte_len_at_least(pending@);
    }
    if length > 0 {
        let t = Token::new_term(pending.as_str(), base_offset - length, word_count);
        tokens.push(t);
    }
    proof {
        assert(token_models(tokens@) =~= split_tokens(s, sp));
    }
    tokens
}

/// Splits `sentence` into tokens at Unicode whitespace and ASCII
/// punctuation.
pub fn whitespace_tokenize(sentence: &str) -> (r: Vec<Token>)
    requires
        sentence@.len() <= isize::MAX,
    ensures
        token_models(r@) == whitespace_tokens(sentence@),
{
    let ghost s = sentence@;
    let mut spaces: Vec<bool> = Vec::new();
    let mut chars = sentence.chars();
    proof {
        assert(s.skip(0) =~= s);
    }
    loop
        invariant
            s == sentence@,
            spaces@.len() <= s.len(),
            chars.remaining() == s.skip(spaces@.len() as int),
            forall|j: int| 0 <= j < spaces@.len() ==> spaces@[j] == is_white_space(#[trigger] s[j]),
        ensures
            spaces@ == white_space_flags(s),
        decreases s.len() - spaces@.len(),
    {
        let ghost i = spaces@.len() as int;
        match chars.next() {
            None => {
                proof {
                    assert(s.skip(i).len() == 0);
                    assert(spaces@ =~= white_space_flags(s));
                }
                break;
            },
            Some(c) => {
                proof {
                    assert(s.skip(i).len() > 0);
                    assert(c == s[i]);
                    assert(s.skip(i + 1) =~= s.skip(i).drop_first());
                }
                spaces.push(char_is_whitespace(c));
            },
        }
    }
    split_tokens_at(sentence, &spaces)
}

/// A piece of a text as a morphological analyser cuts it: the surface text
/// and its part of speech (the first field of its dictionary entry).
#[derive(Debug, Clone, PartialEq)]
pub struct Segment {
    pub text: String,
    pub part_of_speech: String,
}

/// Parts of speech whose segments are indexed as terms: nouns, verbs,
/// adjectives, adjectival nouns, particles, auxiliary verbs, adverbs,
/// adnominals, conjunctions, interjections, and unknown words.
pub open spec fn is_term_tag(t: Seq<char>) -> bool {
    ||| t == "名詞"@
    ||| t == "動詞"@
    ||| t == "形容詞"@
    ||| t == "形容動詞"@
    ||| t == "助詞"@
    ||| t == "助動詞"@
    ||| t == "副詞"@
    ||| t == "連体詞"@
    ||| t == "接続詞"@
    ||| t == "感動詞"@
    ||| t == "UNK"@
}

/// The part of speech of symbols, which become punctuation tokens.
pub open spec fn is_punct_tag(t: Seq<char>) -> bool {
    t == "記号"@
}

/// Bytes taken by the texts of `segs`.
pub open spec fn segments_bytes(segs: Seq<Segment>) -> nat
    decreases segs.len(),
{
    if segs.len() == 0 {
        0
    } else {
        segments_bytes(segs.drop_last()) + byte_len(segs.last().text@)
    }
}

/// The tokens of a segmented text. The segment at index `k` has position `k`
/// and starts after the bytes of the segments before it; a segment whose
/// part of speech is neither a term's nor a symbol's gives no token but
/// still takes its position and its bytes.
pub open spec fn segment_tokens(segs: Seq<Segment>) -> Seq<TokenModel>
    decreases segs.len(),
{
    if segs.len() == 0 {
        Seq::empty()
    } else {
        let prev = segment_tokens(segs.drop_last());
        let sg = segs.last();
        let offset = segments_bytes(segs.drop_last());
        let position = (segs.len() - 1) as nat;
        if is_term_tag(sg.part_of_speech@) {
            prev.push(term_model(sg.text@, offset, position))
        } else if is_punct_tag(sg.part_of_speech@) {
            prev.push(punct_model(sg.text@, offset, position))
        } else {
            prev
        }
    }
}

fn tag_is(tag: &String, name: &str) -> (r: bool)
    ensures
        r == (tag@ == name@),
{
    let owned = name.to_owned();
    *tag == owned
}

fn is_term_part_of_speech(tag: &String) -> (r: bool)
    ensures
        r == is_term_tag(tag@),
{
    tag_is(tag, "名詞") || tag_is(tag, "動詞") || tag_is(tag, "形容詞") || tag_is(tag, "形容動詞")
        || tag_is(tag, "助詞") || tag_is(tag, "助動詞") || tag_is(tag, "副詞") || tag_is(
        tag,
        "連体詞",
    ) || tag_is(tag, "接続詞") || tag_is(tag, "感動詞") || tag_is(tag, "UNK")
}

/// Turns the segments of a text into tokens: terms for the parts of speech
/// that carry words, punctuation for symbols, nothing for the rest.
pub fn segments_to_tokens(segments: &Vec<Segment>) -> (r: Vec<Token>)
    requires
        segments_bytes(segments@) <= usize::MAX,
    ensures
        token_models(r@) == segment_tokens(segments@),
{
    let mut tokens: Vec<Token> = Vec::new();
    let mut base_offset: usize = 0;
    let mut k: usize = 0;
    proof {
        assert(segments@.take(0) =~= Seq::<Segment>::empty());
        assert(token_models(tokens@) =~= Seq::<TokenModel>::empty());
    }
    while k < segments.len()
        invariant
            k <= segments.len(),
            segments_bytes(segments@) <= usize::MAX,
            base_offset == segments_bytes(segments@.take(k as int)),
            token_models(tokens@) == segment_tokens(segments@.take(k as int)),
        decreases segments.len() - k,
    {
        let sg = &segments[k];
        proof {
            assert(segments@.take(k + 1).drop_last() =~= segments@.take(k as int));
            assert(segments@.take(k + 1).last() == *sg);
            lemma_segments_bytes_prefix(segments@, k + 1);
        }
        let width = sg.text.as_str().as_bytes().len();
        if is_term_part_of_speech(&sg.part_of_speech) {
            tokens.push(Token::new_term(sg.text.as_str(), base_offset, k));
        } else if tag_is(&sg.part_of_speech, "記号") {
            tokens.push(Token::new_punct(sg.text.as_str(), base_offset, k));
        }
        proof {
            assert(token_models(tokens@) =~= segment_tokens(segments@.take(k + 1)));
        }
        base_offset = base_offset + width;
        k = k + 1;
    }
    proof {
        assert(segments@.take(k as int) =~= segments@);
    }
    tokens
}

/// The bytes of a prefix of the segments are no more than those of all.
proof fn lemma_segments_bytes_prefix(segs: Seq<Segment>, k: int)
    requires
        0 <= k <= segs.len(),
    ensures
        segments_bytes(segs.take(k)) <= segments_bytes(segs),
    decreases segs.len() - k,
{
    if k < segs.len() {
        lemma_segments_bytes_prefix(segs, k + 1);
        assert(segs.take(k + 1).drop_last() =~= segs.take(k));
    } else {
        assert(segs.take(k) =~= segs);
    }
}

} // verus!
