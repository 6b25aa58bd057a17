//! Splitting text into words, runs of whitespace and line breaks, the units
//! that text layout wraps and measures.
use vstd::prelude::*;

verus! {

/// What a token is made of.
#[derive(Clone, Copy, PartialEq, Eq, Structural, Debug)]
pub enum TokenKind {
    Word,
    Whitespace,
    Newline,
}

/// Whether `c` has the Unicode White_Space property: tab, line feed,
/// vertical tab, form feed, carriage return, space, next line, no-break
/// space, ogham space mark, the spaces from en quad to hair space, line
/// separator, paragraph separator, narrow no-break space, medium
/// mathematical space and ideographic space.
pub open spec fn char_is_whitespace(c: char) -> bool {
    let u = c as u32;
    (0x9 <= u <= 0xD) || u == 0x20 || u == 0x85 || u == 0xA0 || u == 0x1680 || (0x2000 <= u
        <= 0x200A) || u == 0x2028 || u == 0x2029 || u == 0x202F || u == 0x205F || u == 0x3000
}

/// Whether `c` has the Unicode White_Space property, as `char::is_whitespace`
/// tells.
fn is_whitespace(c: char) -> (r: bool)
    ensures
        r == char_is_whitespace(c),
{
    let u = c as u32;
    (0x9 <= u && u <= 0xD) || u == 0x20 || u == 0x85 || u == 0xA0 || u == 0x1680 || (0x2000 <= u
        && u <= 0x200A) || u == 0x2028 || u == 0x2029 || u == 0x202F || u == 0x205F || u == 0x3000
}

/// Collects the characters of `text` (`str::chars`), in order.
#[verifier::external_body]
fn chars_of(text: &str) -> (r: Vec<char>)
    ensures
        r@ == text@,
{
    text.chars().collect()
}

/// Collects `chars` into a `String` (`FromIterator<&char>`), in order.
#[verifier::external_body]
fn string_of(chars: &Vec<char>) -> (r: String)
    ensures
        r@ == chars@,
{
    chars.iter().collect()
}

/// The kind of the token that starts with `c`.
pub open spec fn kind_of(c: char) -> TokenKind {
    if c == '\n' {
        TokenKind::Newline
    } else if char_is_whitespace(c) {
        TokenKind::Whitespace
    } else {
        TokenKind::Word
    }
}

/// Whether `c` may go on a run of whitespace (`ws`) or of word characters.
pub open spec fn continues(c: char, ws: bool) -> bool {
    c != '\n' && char_is_whitespace(c) == ws
}

/// The length of the longest prefix of `s` whose characters all continue a
/// run of the given kind.
pub open spec fn run_len(s: Seq<char>, ws: bool) -> nat
    decreases s.len(),
{
    if s.len() == 0 || !continues(s[0], ws) {
        0
    } else {
        1 + run_len(s.drop_first(), ws)
    }
}

/// The length of the token at the start of `s`: one for a line break,
/// otherwise the first character with all that continue its run.
pub open spec fn first_token_len(s: Seq<char>) -> nat {
    if s.len() == 0 {
        0
    } else if s[0] == '\n' {
        1
    } else {
        1 + run_len(s.drop_first(), char_is_whitespace(s[0]))
    }
}

/// A run never reaches past the end of the text.
pub proof fn lemma_run_len_bound(s: Seq<char>, ws: bool)
    ensures
        run_len(s, ws) <= s.len(),
    decreases s.len(),
{
    if s.len() > 0 && continues(s[0], ws) {
        lemma_run_len_bound(s.drop_first(), ws);
    }
}

/// A nonempty text starts with a nonempty token that fits in it.
pub proof fn lemma_first_token_len(s: Seq<char>)
    requires
        s.len() > 0,
    ensures
        1 <= first_token_len(s) <= s.len(),
{
    if s[0] != '\n' {
        lemma_run_len_bound(s.drop_first(), char_is_whitespace(s[0]));
    }
}

/// The tokens of `s`, in order.
pub open spec fn tokens(s: Seq<char>) -> Seq<(TokenKind, Seq<char>)>
    decreases s.len(),
{
    if s.len() == 0 {
        Seq::empty()
    } else {
        proof {
            lemma_first_token_len(s);
        }
        let n = first_token_len(s) as int;
        seq![(kind_of(s[0]), s.take(n))] + tokens(s.skip(n))
    }
}

/// The characters of `ts`, one token after the other.
pub open spec fn joined(ts: Seq<(TokenKind, Seq<char>)>) -> Seq<char>
    decreases ts.len(),
{
    if ts.len() == 0 {
        Seq::empty()
    } else {
        ts[0].1 + joined(ts.drop_first())
    }
}

/// Whether `token` is a well-made token of kind `kind`: a single line
/// break, or a nonempty run of word characters, or of whitespace other than
/// line breaks.
pub open spec fn well_made(kind: TokenKind, token: Seq<char>) -> bool {
    match kind {
        TokenKind::Newline => token == seq!['\n'],
        TokenKind::Whitespace => token.len() > 0 && forall|i: int|
            0 <= i < token.len() ==> continues(#[trigger] token[i], true),
        TokenKind::Word => token.len() > 0 && forall|i: int|
            0 <= i < token.len() ==> continues(#[trigger] token[i], false),
    }
}

proof fn lemma_run_chars(s: Seq<char>, ws: bool)
    ensures
        forall|i: int| 0 <= i < run_len(s, ws) ==> continues(#[trigger] s[i], ws),
    decreases s.len(),
{
    if s.len() > 0 && continues(s[0], ws) {
        lemma_run_chars(s.drop_first(), ws);
        lemma_run_len_bound(s, ws);
        assert forall|i: int| 0 <= i < run_len(s, ws) implies continues(#[trigger] s[i], ws) by {
            if i > 0 {
                assert(s[i] == s.drop_first()[i - 1]);
            }
        }
    }
}

/// A run is exactly the first `n` characters when those continue it and the
/// one after them, if any, does not.
proof fn lemma_run_len_exact(s: Seq<char>, ws: bool, n: nat)
    requires
        n <= s.len(),
        forall|i: int| 0 <= i < n ==> continues(#[trigger] s[i], ws),
        n == s.len() || !continues(s[n as int], ws),
    ensures
        run_len(s, ws) == n,
    decreases n,
{
    if n > 0 {
        let t = s.drop_first();
        assert forall|i: int| 0 <= i < n - 1 implies continues(#[trigger] t[i], ws) by {
            assert(t[i] == s[i + 1]);
        }
        if n < s.len() {
            assert(t[n - 1] == s[n as int]);
        }
        lemma_run_len_exact(t, ws, (n - 1) as nat);
    }
}

/// The first token of a nonempty text is well made, of the kind its first
/// character gives.
proof fn lemma_first_token_well_made(s: Seq<char>)
    requires
        s.len() > 0,
    ensures
        well_made(kind_of(s[0]), s.take(first_token_len(s) as int)),
{
    lemma_first_token_len(s);
    let n = first_token_len(s) as int;
    let t = s.take(n);
    if s[0] == '\n' {
        assert(t =~= seq!['\n']);
    } else {
        let ws = char_is_whitespace(s[0]);
        lemma_run_chars(s.drop_first(), ws);
        lemma_run_len_bound(s, ws);
        assert forall|i: int| 0 <= i < t.len() implies continues(#[trigger] t[i], ws) by {
            if i > 0 {
                assert(t[i] == s.drop_first()[i - 1]);
            }
        }
    }
}

/// Putting the tokens of a text back together gives the text.
pub proof fn law_tokens_join(s: Seq<char>)
    ensures
        joined(tokens(s)) == s,
    decreases s.len(),
{
    if s.len() > 0 {
        lemma_first_token_len(s);
        let n = first_token_len(s) as int;
        law_tokens_join(s.skip(n));
        let ts = tokens(s);
        assert(ts.drop_first() =~= tokens(s.skip(n)));
        assert(s.take(n) + s.skip(n) =~= s);
    }
}

/// Every token of a text is well made: a line break alone, or a nonempty
/// run of word characters or of whitespace.
pub proof fn law_tokens_well_made(s: Seq<char>)
    ensures
        forall|i: int|
            0 <= i < tokens(s).len() ==> well_made(#[trigger] tokens(s)[i].0, tokens(s)[i].1),
    decreases s.len(),
{
    if s.len() > 0 {
        lemma_first_token_len(s);
        let n = first_token_len(s) as int;
        law_tokens_well_made(s.skip(n));
        lemma_first_token_well_made(s);
        let ts = tokens(s);
        assert forall|i: int| 0 <= i < ts.len() implies well_made(#[trigger] ts[i].0, ts[i].1) by {
            if i > 0 {
                assert(ts[i] == tokens(s.skip(n))[i - 1]);
            }
        }
    }
}

/// A run stops at the first character that does not continue it.
proof fn lemma_run_stops(s: Seq<char>, ws: bool)
    ensures
        run_len(s, ws) < s.len() ==> !continues(s[run_len(s, ws) as int], ws),
    decreases s.len(),
{
    if s.len() > 0 && continues(s[0], ws) {
        lemma_run_stops(s.drop_first(), ws);
        lemma_run_len_bound(s.drop_first(), ws);
        if run_len(s, ws) < s.len() {
            assert(s[run_len(s, ws) as int] == s.drop_first()[run_len(s.drop_first(), ws) as int]);
        }
    }
}

/// Whether two kinds are both words or both runs of whitespace.
pub open spec fn same_run(a: TokenKind, b: TokenKind) -> bool {
    (a == TokenKind::Word && b == TokenKind::Word) || (a == TokenKind::Whitespace && b
        == TokenKind::Whitespace)
}

/// The token after the first one of a text is not of the same run kind.
proof fn lemma_second_token_differs(s: Seq<char>)
    requires
        s.len() > 0,
        s.len() > first_token_len(s),
    ensures
        !same_run(kind_of(s[0]), kind_of(s.skip(first_token_len(s) as int)[0])),
{
    lemma_first_token_len(s);
    if s[0] != '\n' {
        let n = first_token_len(s) as int;
        let ws = char_is_whitespace(s[0]);
        lemma_run_stops(s.drop_first(), ws);
        assert(s.skip(n)[0] == s.drop_first()[n - 1]);
    }
}

/// No two neighbouring tokens are both words or both runs of whitespace.
pub proof fn law_tokens_neighbours(s: Seq<char>)
    ensures
        forall|i: int| 0 <= i < tokens(s).len() - 1 ==> !same_run(#[trigger] tokens(s)[i].0, tokens(s)[i + 1].0),
    decreases s.len(),
{
    if s.len() > 0 {
        lemma_first_token_len(s);
        let n = first_token_len(s) as int;
        let rest = s.skip(n);
        law_tokens_neighbours(rest);
        let ts = tokens(s);
        assert(ts.drop_first() =~= tokens(rest));
        if rest.len() > 0 {
            lemma_second_token_differs(s);
        }
        assert forall|i: int| 0 <= i < ts.len() - 1 implies !same_run(#[trigger] ts[i].0, ts[i + 1].0) by {
            assert(ts[i + 1] == tokens(rest)[i]);
            if i > 0 {
                assert(ts[i] == tokens(rest)[i - 1]);
            }
        }
    }
}

/// The kinds and characters of handed-out tokens.
pub open spec fn token_views(ts: Seq<(TokenKind, String)>) -> Seq<(TokenKind, Seq<char>)> {
    ts.map_values(|t: (TokenKind, String)| (t.0, t.1@))
}

/// The tokens of a nonempty text are its first token followed by the tokens
/// of what comes after it.
proof fn lemma_tokens_step(s: Seq<char>)
    requires
        s.len() > 0,
    ensures
        tokens(s) == seq![tokens(s)[0]] + tokens(s.skip(first_token_len(s) as int)),
        tokens(s)[0] == (kind_of(s[0]), s.take(first_token_len(s) as int)),
{
    lemma_first_token_len(s);
    let n = first_token_len(s) as int;
    assert(tokens(s) == seq![(kind_of(s[0]), s.take(n))] + tokens(s.skip(n)));
    assert(tokens(s) =~= seq![tokens(s)[0]] + tokens(s.skip(n)));
}

/// Hands out the tokens of a text one after the other.
pub struct TokenCursor {
    chars: Vec<char>,
    pos: usize,
}

impl TokenCursor {
    /// The text not handed out yet.
    pub closed spec fn rest(&self) -> Seq<char> {
        if self.pos <= self.chars@.len() {
            self.chars@.skip(self.pos as int)
        } else {
            Seq::empty()
        }
    }

    pub fn new(text: &str) -> (r: TokenCursor)
        ensures
            r.rest() == text@,
    {
        let chars = chars_of(text);
        let r = TokenCursor { chars, pos: 0 };
        assert(r.rest() =~= text@);
        r
    }

    /// The next token and its kind, if any text is left.
    pub fn next(&mut self) -> (r: Option<(TokenKind, String)>)
        ensures
            old(self).rest().len() == 0 ==> r is None && final(self).rest() == old(self).rest(),
            old(self).rest().len() > 0 ==> {
                &&& r is Some
                &&& r.unwrap().0 == tokens(old(self).rest())[0].0
                &&& r.unwrap().1@ == tokens(old(self).rest())[0].1
                &&& final(self).rest() == old(self).rest().skip(
                    first_token_len(old(self).rest()) as int,
                )
                &&& tokens(old(self).rest()) == seq![(r.unwrap().0, r.unwrap().1@)] + tokens(
                    final(self).rest(),
                )
            },
    {
        proof {
            if self.rest().len() > 0 {
                lemma_tokens_step(self.rest());
            }
        }
        let len = self.chars.len();
        if self.pos >= len {
            proof {
                assert(self.rest() =~= Seq::<char>::empty());
            }
            return None;
        }
        let ghost rest = self.rest();
        let start = self.pos;
        let first = self.chars[start];
        let mut token: Vec<char> = Vec::new();
        token.push(first);
        assert(rest[0] == first);
        if first == '\n' {
            self.pos = start + 1;
            proof {
                assert(token@ =~= rest.take(1));
                assert(self.rest() =~= rest.skip(1));
            }
            return Some((TokenKind::Newline, string_of(&token)));
        }
        let ws = is_whitespace(first);
        let mut i: usize = start + 1;
        let mut going = true;
        while going && i < len
            invariant
                len == self.chars@.len(),
                start < i <= len,
                start == self.pos,
                rest == self.chars@.skip(start as int),
                token@ == self.chars@.subrange(start as int, i as int),
                ws == char_is_whitespace(first),
                forall|k: int| start < k < i ==> continues(#[trigger] self.chars@[k], ws),
                !going ==> i < len && !continues(self.chars@[i as int], ws),
            decreases 2 * (len - i) + (if going { 1int } else { 0int }),
        {
            let c = self.chars[i];
            if c == '\n' || is_whitespace(c) != ws {
                going = false;
            } else {
                token.push(c);
                i = i + 1;
            }
        }
        proof {
            let t = rest.drop_first();
            let n = (i - start - 1) as nat;
            assert forall|k: int| 0 <= k < n implies continues(#[trigger] t[k], ws) by {
                assert(t[k] == self.chars@[start + 1 + k]);
            }
            if n < t.len() {
                assert(t[n as int] == self.chars@[i as int]);
            }
            lemma_run_len_exact(t, ws, n);
            assert(token@ =~= rest.take((i - start) as int));
        }
        self.pos = i;
        proof {
            assert(self.rest() =~= rest.skip((i - start) as int));
        }
        let kind = if ws {
            TokenKind::Whitespace
        } else {
            TokenKind::Word
        };
        Some((kind, string_of(&token)))
    }

    /// Every token not handed out yet, in order, as calling `next` until it
    /// gives `None` hands them out; put together they make up the rest of
    /// the text.
    pub fn collect_tokens(self) -> (r: Vec<(TokenKind, String)>)
        ensures
            token_views(r@) == tokens(self.rest()),
            joined(token_views(r@)) == self.rest(),
    {
        let ghost text = self.rest();
        let mut cursor = self;
        let mut out: Vec<(TokenKind, String)> = Vec::new();
        loop
            invariant
                text == self.rest(),
                token_views(out@) + tokens(cursor.rest()) == tokens(text),
            decreases cursor.rest().len(),
        {
            let ghost before = cursor.rest();
            match cursor.next() {
                Some(token) => {
                    proof {
                        lemma_first_token_len(before);
                    }
                    let ghost prev = out@;
                    out.push(token);
                    proof {
                        assert(token_views(out@) =~= token_views(prev).push((token.0, token.1@)));
                        assert(token_views(out@) + tokens(cursor.rest()) =~= token_views(prev) + (seq![
                            (token.0, token.1@),
                        ] + tokens(cursor.rest())));
                    }
                },
                None => {
                    proof {
                        assert(tokens(cursor.rest()) =~= Seq::<(TokenKind, Seq<char>)>::empty());
                        assert(token_views(out@) =~= tokens(text));
                        law_tokens_join(text);
                    }
                    return out;
                },
            }
        }
    }
}

} // verus!
