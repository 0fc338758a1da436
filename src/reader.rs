use vstd::prelude::*;
use vstd::string::*;

use crate::types::{
    assoc_get, error, hash_get, hash_map, is_err_msg, keys_unique, kvs_ok, list, meta_of, seq_items, vector, RlErr, RlRet, RlVal,
};

verus! {

/// The token pattern: separators, then one of `~@`, a punctuation character,
/// a string (closed or not), a comment, or a run of other characters.
pub const TOKEN_PATTERN: &'static str = r###"[\s,]*(~@|[\[\]{}()'`~^@]|"(?:\\.|[^\\"])*"?|;.*|[^\s\[\]{}('"`,;)]+)"###;

/// The pattern of an integer literal.
pub const INT_PATTERN: &'static str = r"^-?[0-9]+$";

/// The first group of each successive match of `TOKEN_PATTERN` in `s`.
pub uninterp spec fn token_captures(s: Seq<char>) -> Seq<Seq<char>>;

/// Relies on regex's `Regex::new` and `Regex::captures_iter`: the first
/// capture group of each successive non-overlapping match, in order. The
/// pattern is the valid constant `TOKEN_PATTERN`, whose first group takes
/// part in every match.
#[verifier::external_body]
fn scan_tokens(pattern: &str, s: &str) -> (r: Vec<String>)
    requires
        pattern@ == TOKEN_PATTERN@,
    ensures
        r@.len() == token_captures(s@).len(),
        forall|i: int| 0 <= i < r@.len() ==> (#[trigger] r@[i])@ == token_captures(s@)[i],
{
    let re = regex::Regex::new(pattern).unwrap();
    re.captures_iter(s).map(|c| c[1].to_string()).collect()
}

pub open spec fn is_digit(c: char) -> bool {
    '0' <= c <= '9'
}

pub open spec fn all_digits(d: Seq<char>) -> bool {
    forall|i: int| 0 <= i < d.len() ==> is_digit(#[trigger] d[i])
}

/// The token without a leading minus sign.
pub open spec fn digit_part(t: Seq<char>) -> Seq<char> {
    if t.len() > 0 && t[0] == '-' {
        t.drop_first()
    } else {
        t
    }
}

/// An optional minus sign followed by one or more ASCII digits, and nothing else.
pub open spec fn is_int_token(t: Seq<char>) -> bool {
    digit_part(t).len() > 0 && all_digits(digit_part(t))
}

/// Relies on regex's `Regex::new` and `Regex::is_match` with the valid
/// constant `INT_PATTERN`, anchored at both ends of the text.
#[verifier::external_body]
fn int_shaped(pattern: &str, t: &str) -> (r: bool)
    requires
        pattern@ == INT_PATTERN@,
    ensures
        r == is_int_token(t@),
{
    regex::Regex::new(pattern).unwrap().is_match(t)
}

/// The decimal value of a run of digits.
pub open spec fn digits_value(d: Seq<char>) -> int
    decreases d.len(),
{
    if d.len() == 0 {
        0
    } else {
        digits_value(d.drop_last()) * 10 + (d.last() as int - '0' as int)
    }
}

/// The value of an integer token.
pub open spec fn int_value(t: Seq<char>) -> int {
    if t.len() > 0 && t[0] == '-' {
        -digits_value(t.drop_first())
    } else {
        digits_value(t)
    }
}

pub open spec fn is_comment(t: Seq<char>) -> bool {
    t.len() > 0 && t[0] == ';'
}

/// `ts` without its comments.
pub open spec fn drop_comments(ts: Seq<Seq<char>>) -> Seq<Seq<char>>
    decreases ts.len(),
{
    if ts.len() == 0 {
        ts
    } else if is_comment(ts.last()) {
        drop_comments(ts.drop_last())
    } else {
        drop_comments(ts.drop_last()).push(ts.last())
    }
}

/// The texts of a list of strings.
pub open spec fn views(v: Seq<String>) -> Seq<Seq<char>> {
    v.map_values(|t: String| t@)
}

/// The tokens of `caps` that are not comments, in order.
pub fn strip_comments(caps: Vec<String>) -> (r: Vec<String>)
    ensures
        views(r@) == drop_comments(views(caps@)),
{
    let ghost ts = views(caps@);
    let mut res: Vec<String> = Vec::new();
    let mut i: usize = 0;
    while i < caps.len()
        invariant
            ts == views(caps@),
            i <= caps@.len(),
            views(res@) == drop_comments(ts.subrange(0, i as int)),
        decreases caps@.len() - i,
    {
        assert(ts.subrange(0, i + 1).drop_last() == ts.subrange(0, i as int));
        assert(ts[i as int] == caps@[i as int]@);
        let t = caps[i].as_str();
        let comment = t.unicode_len() > 0 && t.get_char(0) == ';';
        if !comment {
            let ghost before = res@;
            res.push(caps[i].clone());
            assert(views(res@) =~= views(before).push(ts[i as int]));
        }
        i = i + 1;
    }
    assert(ts.subrange(0, i as int) == ts);
    res
}

/// The tokens of `s`, comments left out.
pub fn tokenize(s: &str) -> (r: Vec<String>)
    ensures
        views(r@) == drop_comments(token_captures(s@)),
{
    let caps = scan_tokens(TOKEN_PATTERN, s);
    assert(views(caps@) =~= token_captures(s@));
    strip_comments(caps)
}

proof fn lemma_digits_grow(d: Seq<char>, i: int, j: int)
    requires
        0 <= i <= j <= d.len(),
        all_digits(d),
    ensures
        digits_value(d.subrange(0, j)) >= digits_value(d.subrange(0, i)),
        digits_value(d.subrange(0, i)) >= 0,
    decreases j - i,
{
    if i < j {
        lemma_digits_grow(d, i, j - 1);
        assert(d.subrange(0, j).drop_last() == d.subrange(0, j - 1));
        assert(d.subrange(0, j).last() == d[j - 1]);
    } else {
        assert(all_digits(d.subrange(0, i))) by {
            assert forall|k: int| 0 <= k < i implies is_digit(#[trigger] d.subrange(0, i)[k]) by {
                assert(d.subrange(0, i)[k] == d[k]);
            }
        }
        lemma_digits_nonneg(d.subrange(0, i));
    }
}

proof fn lemma_digits_nonneg(d: Seq<char>)
    requires
        all_digits(d),
    ensures
        digits_value(d) >= 0,
    decreases d.len(),
{
    if d.len() > 0 {
        assert(all_digits(d.drop_last())) by {
            assert forall|i: int| 0 <= i < d.len() - 1 implies is_digit(#[trigger] d.drop_last()[i]) by {
                assert(d.drop_last()[i] == d[i]);
            }
        }
        lemma_digits_nonneg(d.drop_last());
    }
}

pub open spec fn fits_i64(v: int) -> bool {
    i64::MIN <= v <= i64::MAX
}

/// The value of an integer token, if it fits in 64 bits.
pub fn parse_int(t: &str) -> (r: Option<i64>)
    requires
        is_int_token(t@),
    ensures
        fits_i64(int_value(t@)) ==> r == Some(int_value(t@) as i64),
        !fits_i64(int_value(t@)) ==> r is None,
{
    let n = t.unicode_len();
    let neg = t.get_char(0) == '-';
    let start: usize = if neg { 1 } else { 0 };
    let ghost d = t@.subrange(start as int, n as int);
    assert(d == digit_part(t@));
    let limit: i128 = 9223372036854775808;
    let mut acc: i128 = 0;
    let mut i: usize = start;
    while i < n
        invariant
            n == t@.len(),
            start <= i <= n,
            d == t@.subrange(start as int, n as int),
            d == digit_part(t@),
            t@.len() > 0,
            neg == (t@[0] == '-'),
            all_digits(d),
            acc == digits_value(d.subrange(0, i - start)),
            0 <= acc <= limit,
            limit == 9223372036854775808,
        decreases n - i,
    {
        let c = t.get_char(i);
        assert(c == d[i - start]);
        assert(d.subrange(0, i + 1 - start).drop_last() == d.subrange(0, i - start));
        let next: i128 = acc * 10 + (c as u32 - '0' as u32) as i128;
        assert(next == digits_value(d.subrange(0, i + 1 - start)));
        if next > limit {
            proof {
                lemma_digits_grow(d, i + 1 - start, d.len() as int);
                assert(d.subrange(0, d.len() as int) == d);
                assert(digits_value(d) > limit);
                assert(int_value(t@) == if neg { -digits_value(d) } else { digits_value(d) });
            }
            return None;
        }
        acc = next;
        i = i + 1;
    }
    assert(d.subrange(0, i - start) == d);
    if neg {
        Some((0 - acc) as i64)
    } else if acc <= 9223372036854775807 {
        Some(acc as i64)
    } else {
        None
    }
}

/// Whether the string `t` is the text `lit`.
fn same_text(t: &String, lit: &str) -> (r: bool)
    ensures
        r == (t@ == lit@),
{
    *t == lit.to_owned()
}

/// Whether the inside of a string token has no bare quote and no dangling
/// backslash.
pub open spec fn body_ok(b: Seq<char>) -> bool
    decreases b.len(),
{
    if b.len() == 0 {
        true
    } else if b[0] == '\\' {
        b.len() >= 2 && body_ok(b.subrange(2, b.len() as int))
    } else if b[0] == '"' {
        false
    } else {
        body_ok(b.drop_first())
    }
}

/// The character that a backslash escape stands for.
pub open spec fn escaped(c: char) -> char {
    if c == 'n' {
        '\n'
    } else {
        c
    }
}

/// The text of a string's inside, escapes resolved.
pub open spec fn unescape(b: Seq<char>) -> Seq<char>
    decreases b.len(),
{
    if b.len() == 0 {
        Seq::empty()
    } else if b[0] == '\\' && b.len() >= 2 {
        seq![escaped(b[1])] + unescape(b.subrange(2, b.len() as int))
    } else {
        seq![b[0]] + unescape(b.drop_first())
    }
}

pub open spec fn starts_string(t: Seq<char>) -> bool {
    t.len() > 0 && t[0] == '"'
}

/// The inside of a string token.
pub open spec fn string_body(t: Seq<char>) -> Seq<char> {
    t.subrange(1, t.len() - 1)
}

/// Whether a string token is closed by its own quote.
pub open spec fn string_closed(t: Seq<char>) -> bool {
    t.len() >= 2 && t[0] == '"' && t[t.len() - 1] == '"' && body_ok(string_body(t))
}

/// Reads a string token: its inside with escapes resolved, or an error for
/// a string that is not closed.
pub fn read_string(t: &str) -> (r: RlRet)
    requires
        starts_string(t@),
    ensures
        string_closed(t@) ==> (r matches Ok(RlVal::Str(s)) && s@ == unescape(string_body(t@))),
        !string_closed(t@) ==> is_err_msg(r, "expected '\"', got EOF"@),
{
    let n = t.unicode_len();
    if n < 2 || t.get_char(n - 1) != '"' {
        return error("expected '\"', got EOF");
    }
    let m: usize = n - 2;
    let ghost b = string_body(t@);
    let mut out = String::new();
    let mut k: usize = 0;
    assert(b.subrange(0, m as int) == b);
    assert(out@ + unescape(b) =~= unescape(b));
    while k < m
        invariant
            n == t@.len(),
            m == n - 2,
            b == t@.subrange(1, n - 1),
            k <= m,
            out@ + unescape(b.subrange(k as int, m as int)) == unescape(b),
            body_ok(b.subrange(k as int, m as int)) == body_ok(b),
        decreases m - k,
    {
        let ghost sub = b.subrange(k as int, m as int);
        let c = t.get_char(k + 1);
        assert(sub[0] == c);
        if c == '\\' {
            if k + 1 >= m {
                return error("expected '\"', got EOF");
            }
            let d = t.get_char(k + 2);
            assert(sub[1] == d);
            assert(sub.subrange(2, sub.len() as int) == b.subrange(k + 2, m as int));
            if d == 'n' {
                proof {
                    reveal_strlit("\n");
                }
                out = out.concat("\n");
            } else {
                out = out.concat(t.substring_char(k + 2, k + 3));
            }
            assert(out@ + unescape(b.subrange(k + 2, m as int)) =~= unescape(b));
            k = k + 2;
        } else if c == '"' {
            return error("expected '\"', got EOF");
        } else {
            assert(sub.drop_first() == b.subrange(k + 1, m as int));
            out = out.concat(t.substring_char(k + 1, k + 2));
            assert(out@ + unescape(b.subrange(k + 1, m as int)) =~= unescape(b));
            k = k + 1;
        }
    }
    assert(b.subrange(k as int, m as int).len() == 0);
    assert(out@ =~= unescape(b));
    Ok(RlVal::Str(out))
}

/// What reading the atom token `t` gives.
pub open spec fn atom_spec(t: Seq<char>, r: RlRet) -> bool {
    &&& t == "nil"@ ==> r == Ok::<RlVal, RlErr>(RlVal::Nil)
    &&& t == "true"@ ==> r == Ok::<RlVal, RlErr>(RlVal::Bool(true))
    &&& t == "false"@ ==> r == Ok::<RlVal, RlErr>(RlVal::Bool(false))
    &&& is_int_token(t) && fits_i64(int_value(t)) ==> r == Ok::<RlVal, RlErr>(
        RlVal::Int(int_value(t) as i64),
    )
    &&& is_int_token(t) && !fits_i64(int_value(t)) ==> is_err_msg(r, "integer out of range"@)
    &&& starts_string(t) && string_closed(t) ==> (r matches Ok(RlVal::Str(s)) && s@ == unescape(
        string_body(t),
    ))
    &&& starts_string(t) && !string_closed(t) ==> is_err_msg(r, "expected '\"', got EOF"@)
    &&& !is_int_token(t) && !starts_string(t) && t != "nil"@ && t != "true"@ && t != "false"@ ==> (
    r matches Ok(RlVal::Sym(s)) && s@ == t)
}

/// The atom that a token denotes. A token of integer shape whose value does
/// not fit in 64 bits is an error.
pub fn atom_of(token: &String) -> (r: RlRet)
    ensures
        atom_spec(token@, r),
{
    proof {
        reveal_strlit("nil");
        reveal_strlit("true");
        reveal_strlit("false");
        assert("nil"@.len() == 3 && "true"@.len() == 4 && "false"@.len() == 5);
        assert(!is_int_token("nil"@)) by {
            assert(digit_part("nil"@)[0] == 'n');
        }
        assert(!is_int_token("true"@)) by {
            assert(digit_part("true"@)[0] == 't');
        }
        assert(!is_int_token("false"@)) by {
            assert(digit_part("false"@)[0] == 'f');
        }
    }
    if same_text(token, "nil") {
        Ok(RlVal::Nil)
    } else if same_text(token, "false") {
        Ok(RlVal::Bool(false))
    } else if same_text(token, "true") {
        Ok(RlVal::Bool(true))
    } else if token.as_str().unicode_len() > 0 && token.as_str().get_char(0) == '"' {
        read_string(token.as_str())
    } else if int_shaped(INT_PATTERN, token.as_str()) {
        match parse_int(token.as_str()) {
            Some(v) => Ok(RlVal::Int(v)),
            None => error("integer out of range"),
        }
    } else {
        Ok(RlVal::Sym(token.clone()))
    }
}

/// A token stream and a cursor into it.
pub struct Reader {
    pub tokens: Vec<String>,
    pub pos: usize,
}

pub open spec fn underflow(r: Result<String, RlErr>) -> bool {
    r matches Err(RlErr::ErrString(m)) && m@ == "underflow"@
}

impl Reader {
    /// Takes the token under the cursor and moves the cursor one step on,
    /// also when no token is left (unless it is at the largest position).
    pub fn next(&mut self) -> (r: Result<String, RlErr>)
        ensures
            final(self).tokens == old(self).tokens,
            old(self).pos < old(self).tokens@.len() ==> (r matches Ok(t) && t@ == old(
                self,
            ).tokens@[old(self).pos as int]@ && final(self).pos == old(self).pos + 1),
            old(self).pos >= old(self).tokens@.len() ==> underflow(r),
            old(self).pos < usize::MAX ==> final(self).pos == old(self).pos + 1,
            old(self).pos == usize::MAX ==> final(self).pos == old(self).pos,
    {
        if self.pos < self.tokens.len() {
            let t = self.tokens[self.pos].clone();
            self.pos = self.pos + 1;
            Ok(t)
        } else {
            if self.pos < usize::MAX {
                self.pos = self.pos + 1;
            }
            Err(RlErr::ErrString("underflow".to_owned()))
        }
    }

    /// The token under the cursor.
    pub fn peek(&self) -> (r: Result<String, RlErr>)
        ensures
            self.pos < self.tokens@.len() ==> (r matches Ok(t) && t@ == self.tokens@[self.pos as int]@),
            self.pos >= self.tokens@.len() ==> underflow(r),
    {
        if self.pos < self.tokens.len() {
            Ok(self.tokens[self.pos].clone())
        } else {
            Err(RlErr::ErrString("underflow".to_owned()))
        }
    }
}

/// The one-character tokens of the reader, spelled out.
proof fn lemma_token_texts()
    ensures
        "'"@.len() == 1 && "'"@[0] == '\'',
        "`"@.len() == 1 && "`"@[0] == '`',
        "~"@.len() == 1 && "~"@[0] == '~',
        "@"@.len() == 1 && "@"@[0] == '@',
        "^"@.len() == 1 && "^"@[0] == '^',
        "("@.len() == 1 && "("@[0] == '(',
        ")"@.len() == 1 && ")"@[0] == ')',
        "["@.len() == 1 && "["@[0] == '[',
        "]"@.len() == 1 && "]"@[0] == ']',
        "{"@.len() == 1 && "{"@[0] == '{',
        "}"@.len() == 1 && "}"@[0] == '}',
        "~@"@.len() == 2,
{
    reveal_strlit("'");
    reveal_strlit("`");
    reveal_strlit("~");
    reveal_strlit("@");
    reveal_strlit("^");
    reveal_strlit("(");
    reveal_strlit(")");
    reveal_strlit("[");
    reveal_strlit("]");
    reveal_strlit("{");
    reveal_strlit("}");
    reveal_strlit("~@");
}

/// Whether `v` is a list of `n` items headed by the symbol `tag`.
pub open spec fn tagged(v: RlVal, tag: Seq<char>, n: int) -> bool {
    &&& v is List
    &&& seq_items(v).len() == n
    &&& seq_items(v)[0] is Sym
    &&& seq_items(v)[0]->Sym_0@ == tag
    &&& meta_of(v) == RlVal::Nil
}

/// The symbol that a reader-macro token expands to, if it is one.
pub open spec fn macro_tag(t: Seq<char>) -> Option<Seq<char>> {
    if t == "'"@ {
        Some("quote"@)
    } else if t == "`"@ {
        Some("quasiquote"@)
    } else if t == "~"@ {
        Some("unquote"@)
    } else if t == "~@"@ {
        Some("splice-unquote"@)
    } else if t == "@"@ {
        Some("deref"@)
    } else {
        None
    }
}

/// Whether a token opens or closes a sequence, or is a reader macro.
pub open spec fn is_structural(t: Seq<char>) -> bool {
    macro_tag(t) is Some || t == "^"@ || t == "("@ || t == ")"@ || t == "["@ || t == "]"@ || t
        == "{"@
}

/// How the reader's cursor moves while it reads a form.
pub open spec fn advances(r: RlRet, before: Reader, after: Reader) -> bool {
    &&& after.tokens == before.tokens
    &&& before.pos <= before.tokens@.len() ==> after.pos <= after.tokens@.len()
    &&& r is Ok ==> before.pos < after.pos
}

/// What reading a form that starts with the token `t` gives.
pub open spec fn form_result(t: Seq<char>, r: RlRet) -> bool {
    &&& t == ")"@ ==> is_err_msg(r, "unexpected ')'"@)
    &&& t == "]"@ ==> is_err_msg(r, "unexpected ']'"@)
    &&& macro_tag(t) matches Some(tag) ==> (r matches Ok(v) ==> tagged(v, tag, 2))
    &&& t == "^"@ ==> (r matches Ok(v) ==> tagged(v, "with-meta"@, 3))
    &&& t == "("@ ==> (r matches Ok(v) ==> v is List && meta_of(v) == RlVal::Nil)
    &&& t == "["@ ==> (r matches Ok(v) ==> v is Vector && meta_of(v) == RlVal::Nil)
    &&& t == "{"@ ==> (r matches Ok(v) ==> v is Hash && meta_of(v) == RlVal::Nil)
    &&& !is_structural(t) ==> atom_spec(t, r)
}

/// The texts of a reader's tokens.
pub open spec fn texts(rdr: Reader) -> Seq<Seq<char>> {
    rdr.tokens@.map_values(|t: String| t@)
}

/// The token that closes a sequence opened by `t`.
pub open spec fn closer(t: Seq<char>) -> Seq<char> {
    if t == "("@ {
        ")"@
    } else if t == "["@ {
        "]"@
    } else {
        "}"@
    }
}

pub open spec fn opens_seq(t: Seq<char>) -> bool {
    t == "("@ || t == "["@ || t == "{"@
}

/// What a sequence opened by `t` holding the forms `items` reads as: a list,
/// a vector, or a hash built from `items` as a flat key/value list.
pub open spec fn seq_shape(t: Seq<char>, items: Seq<RlVal>, v: RlVal) -> bool {
    if t == "("@ {
        v is List && seq_items(v) == items && meta_of(v) == RlVal::Nil
    } else if t == "["@ {
        v is Vector && seq_items(v) == items && meta_of(v) == RlVal::Nil
    } else {
        match v {
            RlVal::Hash(h, m) => *m == RlVal::Nil && kvs_ok(items) && keys_unique(h@) && forall|k: Seq<char>|
                #[trigger] hash_get(h@, k) == assoc_get(Seq::empty(), items, (items.len() / 2) as int, k),
            _ => false,
        }
    }
}

/// Whether `items` are read one after another from the tokens strictly
/// between `p` and `q - 1`, the `i`-th from `ps[i]` up to `ps[i + 1]`, none
/// of them starting at the closing token `c`.
pub open spec fn reads_each(
    toks: Seq<Seq<char>>,
    p: int,
    q: int,
    c: Seq<char>,
    items: Seq<RlVal>,
    ps: Seq<int>,
) -> bool
    decreases q - p, 0int,
{
    &&& ps.len() == items.len() + 1
    &&& ps[0] == p + 1
    &&& ps[items.len() as int] == q - 1
    &&& forall|i: int|
        #![trigger ps[i]]
        #![trigger items[i]]
        0 <= i < items.len() ==> p < ps[i] && ps[i] < ps[i + 1] && ps[i + 1] < q && toks[ps[i]] != c && reads(
            toks,
            ps[i],
            items[i],
            ps[i + 1],
        )
}

pub open spec fn between(a: int, m: int, b: int) -> bool {
    a < m < b
}

/// Whether the tokens `toks[p..q]` read as the form `v`.
pub open spec fn reads(toks: Seq<Seq<char>>, p: int, v: RlVal, q: int) -> bool
    decreases q - p, 1int,
{
    if !(0 <= p < q <= toks.len()) {
        false
    } else {
        let t = toks[p];
        if macro_tag(t) is Some {
            tagged(v, macro_tag(t)->Some_0, 2) && reads(toks, p + 1, seq_items(v)[1], q)
        } else if t == "^"@ {
            tagged(v, "with-meta"@, 3) && exists|m: int|
                #[trigger] between(p + 1, m, q) && reads(toks, p + 1, seq_items(v)[2], m) && reads(
                    toks,
                    m,
                    seq_items(v)[1],
                    q,
                )
        } else if opens_seq(t) {
            toks[q - 1] == closer(t) && exists|items: Seq<RlVal>, ps: Seq<int>|
                #![trigger seq_shape(t, items, v), ps[0]]
                reads_each(toks, p, q, closer(t), items, ps) && seq_shape(t, items, v)
        } else if is_structural(t) {
            false
        } else {
            q == p + 1 && atom_spec(t, Ok(v))
        }
    }
}

/// Reading is deterministic where it matters: a form that starts at a token
/// ends at one place only, and whether it is a string is fixed by its tokens.
pub proof fn lemma_reads_end(toks: Seq<Seq<char>>, p: int, v1: RlVal, q1: int, v2: RlVal, q2: int)
    requires
        reads(toks, p, v1, q1),
        reads(toks, p, v2, q2),
    ensures
        q1 == q2,
        (v1 is Str) == (v2 is Str),
    decreases q1 - p, 1int, 0int,
{
    reveal_with_fuel(reads, 2);
    lemma_token_texts();
    let t = toks[p];
    if macro_tag(t) is Some {
        lemma_reads_end(toks, p + 1, seq_items(v1)[1], q1, seq_items(v2)[1], q2);
    } else if t == "^"@ {
        let m1 = choose|m: int|
            #[trigger] between(p + 1, m, q1) && reads(toks, p + 1, seq_items(v1)[2], m) && reads(
                toks,
                m,
                seq_items(v1)[1],
                q1,
            );
        let m2 = choose|m: int|
            #[trigger] between(p + 1, m, q2) && reads(toks, p + 1, seq_items(v2)[2], m) && reads(
                toks,
                m,
                seq_items(v2)[1],
                q2,
            );
        lemma_reads_end(toks, p + 1, seq_items(v1)[2], m1, seq_items(v2)[2], m2);
        lemma_reads_end(toks, m1, seq_items(v1)[1], q1, seq_items(v2)[1], q2);
    } else if opens_seq(t) {
        let c = closer(t);
        assert(exists|items: Seq<RlVal>, ps: Seq<int>|
            #![trigger seq_shape(t, items, v1), ps[0]]
            reads_each(toks, p, q1, c, items, ps) && seq_shape(t, items, v1));
        let (items1, ps1) = choose|items: Seq<RlVal>, ps: Seq<int>|
            #![trigger seq_shape(t, items, v1), ps[0]]
            reads_each(toks, p, q1, c, items, ps) && seq_shape(t, items, v1);
        let (items2, ps2) = choose|items: Seq<RlVal>, ps: Seq<int>|
            #![trigger seq_shape(t, items, v2), ps[0]]
            reads_each(toks, p, q2, c, items, ps) && seq_shape(t, items, v2);
        let n2 = items2.len() as int;
        assert forall|j: int|
            0 <= j < n2 implies toks[#[trigger] ps2[j]] != c && reads(toks, ps2[j], items2[j], ps2[j + 1]) by {
            assert(items2[j] == items2[j]);
        }
        lemma_prefix_agree(toks, p, q1, c, items1, ps1, items2, ps2, n2);
        if n2 < items1.len() {
            assert(toks[ps1[n2]] != c);
        }
    } else {
        assert(!(starts_string(t) && is_int_token(t))) by {
            if starts_string(t) {
                assert(digit_part(t)[0] == '"');
            }
        }
    }
}

/// Two readings of the same tokens, one of them possibly partial, agree on
/// where each of the first `k` items starts and ends.
pub proof fn lemma_prefix_agree(
    toks: Seq<Seq<char>>,
    p: int,
    q: int,
    c: Seq<char>,
    items: Seq<RlVal>,
    ps: Seq<int>,
    xitems: Seq<RlVal>,
    xps: Seq<int>,
    k: int,
)
    requires
        reads_each(toks, p, q, c, items, ps),
        toks[q - 1] == c,
        0 <= k < xps.len(),
        k <= xitems.len(),
        xps[0] == p + 1,
        forall|j: int|
            0 <= j < k ==> toks[#[trigger] xps[j]] != c && reads(toks, xps[j], xitems[j], xps[j + 1]),
    ensures
        k <= items.len(),
        forall|j: int| 0 <= j <= k ==> #[trigger] ps[j] == xps[j],
        forall|j: int| 0 <= j < k ==> (#[trigger] items[j] is Str) == (xitems[j] is Str),
    decreases q - p, 0int, k,
{
    if k > 0 {
        lemma_prefix_agree(toks, p, q, c, items, ps, xitems, xps, k - 1);
        let j = k - 1;
        if j == items.len() {
            assert(toks[xps[j]] != c);
            assert(ps[j] == q - 1);
        } else {
            assert(ps[j] == xps[j]);
            assert(reads(toks, ps[j], items[j], ps[j + 1]));
            lemma_reads_end(toks, ps[j], items[j], ps[j + 1], xitems[j], xps[j + 1]);
        }
    }
}

/// A sequence whose reading stopped at its `k`-th item, where no form can
/// be read and the closing token does not stand, has no reading at all.
proof fn lemma_seq_stuck(toks: Seq<Seq<char>>, p: int, xitems: Seq<RlVal>, xps: Seq<int>, k: int)
    requires
        0 <= p < toks.len(),
        opens_seq(toks[p]),
        xps.len() == k + 1,
        xitems.len() == k,
        xps[0] == p + 1,
        forall|j: int|
            0 <= j < k ==> toks[#[trigger] xps[j]] != closer(toks[p]) && reads(
                toks,
                xps[j],
                xitems[j],
                xps[j + 1],
            ),
        xps[k] >= toks.len() || (toks[xps[k]] != closer(toks[p]) && forall|v: RlVal, q: int|
            !#[trigger] reads(toks, xps[k], v, q)),
    ensures
        forall|v: RlVal, q: int| !#[trigger] reads(toks, p, v, q),
{
    lemma_token_texts();
    let t = toks[p];
    let c = closer(t);
    assert forall|v: RlVal, q: int| !#[trigger] reads(toks, p, v, q) by {
        reveal_with_fuel(reads, 2);
        if reads(toks, p, v, q) {
            let (items, ps) = choose|items: Seq<RlVal>, ps: Seq<int>|
                #![trigger seq_shape(t, items, v), ps[0]]
                reads_each(toks, p, q, c, items, ps) && seq_shape(t, items, v);
            lemma_prefix_agree(toks, p, q, c, items, ps, xitems, xps, k);
            if k < items.len() {
                assert(items[k] == items[k]);
                assert(reads(toks, ps[k], items[k], ps[k + 1]));
            } else {
                assert(ps[k] == q - 1);
            }
        }
    }
}

/// A hash whose forms were all read but do not make a key/value list has
/// no reading.
proof fn lemma_hash_rejected(toks: Seq<Seq<char>>, p: int, qx: int, xitems: Seq<RlVal>, xps: Seq<int>)
    requires
        0 <= p < toks.len(),
        toks[p] == "{"@,
        reads_each(toks, p, qx, "}"@, xitems, xps),
        toks[qx - 1] == "}"@,
        !kvs_ok(xitems),
    ensures
        forall|v: RlVal, q: int| !#[trigger] reads(toks, p, v, q),
{
    lemma_token_texts();
    let t = toks[p];
    let c = closer(t);
    assert forall|v: RlVal, q: int| !#[trigger] reads(toks, p, v, q) by {
        reveal_with_fuel(reads, 2);
        if reads(toks, p, v, q) {
            let (items, ps) = choose|items: Seq<RlVal>, ps: Seq<int>|
                #![trigger seq_shape(t, items, v), ps[0]]
                reads_each(toks, p, q, c, items, ps) && seq_shape(t, items, v);
            let k = xitems.len() as int;
            assert forall|j: int|
                0 <= j < k implies toks[#[trigger] xps[j]] != c && reads(toks, xps[j], xitems[j], xps[j + 1]) by {
                assert(xitems[j] == xitems[j]);
            }
            lemma_prefix_agree(toks, p, q, c, items, ps, xitems, xps, k);
            if k < items.len() {
                assert(items[k] == items[k]);
                assert(toks[ps[k]] != c);
            }
            assert(kvs_ok(items));
            assert forall|i: int| 0 <= i < xitems.len() && i % 2 == 0 implies (#[trigger] xitems[i]) is Str by {
                assert(items[i] is Str);
            }
        }
    }
}

fn tag_list(tag: &str, form: RlVal) -> (r: RlVal)
    ensures
        tagged(r, tag@, 2),
        seq_items(r)[1] == form,
{
    let mut v: Vec<RlVal> = Vec::new();
    v.push(RlVal::Sym(tag.to_owned()));
    v.push(form);
    list(v)
}

/// Reads one form at the cursor. Reader macros expand to tagged lists, `(`,
/// `[` and `{` open a list, a vector or a hash, and any other token is an atom.
pub fn read_form(rdr: &mut Reader) -> (r: RlRet)
    ensures
        advances(r, *old(rdr), *final(rdr)),
        old(rdr).pos >= old(rdr).tokens@.len() ==> is_err_msg(r, "underflow"@),
        old(rdr).pos < old(rdr).tokens@.len() ==> form_result(
            old(rdr).tokens@[old(rdr).pos as int]@,
            r,
        ),
        old(rdr).pos < old(rdr).tokens@.len() && !is_structural(
            old(rdr).tokens@[old(rdr).pos as int]@,
        ) ==> final(rdr).pos == old(rdr).pos + 1,
        r matches Ok(v) ==> reads(texts(*old(rdr)), old(rdr).pos as int, v, final(rdr).pos as int),
        r is Err ==> forall|v: RlVal, q: int| !#[trigger] reads(texts(*old(rdr)), old(rdr).pos as int, v, q),
    decreases old(rdr).tokens@.len() - old(rdr).pos, 1int,
{
    proof {
        lemma_token_texts();
    }
    let token = match rdr.peek() {
        Ok(t) => t,
        Err(e) => {
            assert forall|v: RlVal, q: int| !#[trigger] reads(texts(*rdr), rdr.pos as int, v, q) by {}
            return Err(e);
        },
    };
    let tag: Option<&str> = if same_text(&token, "'") {
        Some("quote")
    } else if same_text(&token, "`") {
        Some("quasiquote")
    } else if same_text(&token, "~") {
        Some("unquote")
    } else if same_text(&token, "~@") {
        Some("splice-unquote")
    } else if same_text(&token, "@") {
        Some("deref")
    } else {
        None
    };
    let ghost toks = texts(*rdr);
    let ghost p0 = rdr.pos as int;
    assert(toks[p0] == token@);
    if let Some(tg) = tag {
        let _ = rdr.next();
        let ghost p1 = rdr.pos as int;
        assert(texts(*rdr) == toks && p1 == p0 + 1);
        assert(macro_tag(toks[p0]) == Some(tg@));
        let form = match read_form(rdr) {
            Ok(f) => f,
            Err(e) => {
                assert forall|v: RlVal, q: int| !#[trigger] reads(toks, p0, v, q) by {
                    reveal_with_fuel(reads, 2);
                    if reads(toks, p0, v, q) {
                        assert(reads(toks, p1, seq_items(v)[1], q));
                    }
                }
                return Err(e);
            },
        };
        let v = tag_list(tg, form);
        assert(reads(toks, p0, v, rdr.pos as int));
        return Ok(v);
    }
    if same_text(&token, "^") {
        let _ = rdr.next();
        let ghost p1 = rdr.pos as int;
        assert(texts(*rdr) == toks && p1 == p0 + 1);
        let meta = match read_form(rdr) {
            Ok(f) => f,
            Err(e) => {
                assert(toks[p0] == "^"@);
                assert(macro_tag(toks[p0]) is None);
                assert forall|v: RlVal, q: int| !#[trigger] reads(toks, p0, v, q) by {
                    reveal_with_fuel(reads, 2);
                    if reads(toks, p0, v, q) {
                        let m1 = choose|m: int|
                            #[trigger] between(p0 + 1, m, q) && reads(toks, p0 + 1, seq_items(v)[2], m)
                                && reads(toks, m, seq_items(v)[1], q);
                        assert(reads(toks, p1, seq_items(v)[2], m1));
                    }
                }
                return Err(e);
            },
        };
        let ghost m = rdr.pos as int;
        assert(texts(*rdr) == toks);
        let target = match read_form(rdr) {
            Ok(f) => f,
            Err(e) => {
                assert(toks[p0] == "^"@);
                assert(macro_tag(toks[p0]) is None);
                assert forall|v: RlVal, q: int| !#[trigger] reads(toks, p0, v, q) by {
                    reveal_with_fuel(reads, 2);
                    if reads(toks, p0, v, q) {
                        let m1 = choose|m: int|
                            #[trigger] between(p0 + 1, m, q) && reads(toks, p0 + 1, seq_items(v)[2], m)
                                && reads(toks, m, seq_items(v)[1], q);
                        lemma_reads_end(toks, p0 + 1, meta, m, seq_items(v)[2], m1);
                        assert(reads(toks, m, seq_items(v)[1], q));
                    }
                }
                return Err(e);
            },
        };
        let mut items: Vec<RlVal> = Vec::new();
        items.push(RlVal::Sym("with-meta".to_owned()));
        items.push(target);
        items.push(meta);
        let v = list(items);
        assert(seq_items(v)[2] == meta && seq_items(v)[1] == target);
        assert(reads(toks, p0 + 1, seq_items(v)[2], m));
        assert(reads(toks, m, seq_items(v)[1], rdr.pos as int));
        assert(p0 + 1 < m < rdr.pos);
        assert(tagged(v, "with-meta"@, 3));
        assert(toks[p0] == "^"@);
        assert(macro_tag(toks[p0]) is None);
        assert(between(p0 + 1, m, rdr.pos as int));
        assert(reads(toks, p0, v, rdr.pos as int));
        return Ok(v);
    }
    if same_text(&token, ")") {
        assert forall|v: RlVal, q: int| !#[trigger] reads(toks, p0, v, q) by {}
        error("unexpected ')'")
    } else if same_text(&token, "(") {
        read_seq(rdr, ")")
    } else if same_text(&token, "]") {
        assert forall|v: RlVal, q: int| !#[trigger] reads(toks, p0, v, q) by {}
        error("unexpected ']'")
    } else if same_text(&token, "[") {
        read_seq(rdr, "]")
    } else if same_text(&token, "{") {
        read_seq(rdr, "}")
    } else {
        let t = rdr.next()?;
        let r = atom_of(&t);
        assert(t@ == toks[p0]);
        proof {
            assert(!(starts_string(t@) && is_int_token(t@))) by {
                if starts_string(t@) {
                    assert(digit_part(t@)[0] == '"');
                }
            }
            if r is Err {
                assert forall|v: RlVal, q: int| !#[trigger] reads(toks, p0, v, q) by {
                    if reads(toks, p0, v, q) {
                        assert(atom_spec(t@, Ok(v)));
                    }
                }
            }
        }
        r
    }
}

/// An atom token that reads without error and is not the closing token `end`.
pub open spec fn plain_atom(t: Seq<char>, end: Seq<char>) -> bool {
    &&& !is_structural(t)
    &&& t != end
    &&& !(is_int_token(t) && !fits_i64(int_value(t)))
    &&& !(starts_string(t) && !string_closed(t))
}

/// Whether every token from `from` on is a plain atom.
pub open spec fn plain_run(toks: Seq<Seq<char>>, from: int, end: Seq<char>) -> bool {
    forall|j: int| from <= j < toks.len() ==> plain_atom(#[trigger] toks[j], end)
}

/// The error for a sequence that the tokens end inside of.
pub open spec fn eof_msg(end: Seq<char>) -> Seq<char> {
    "expected '"@ + end + "', got EOF"@
}

/// Reads the forms of a sequence up to the closing delimiter `end` (`)`,
/// `]` or `}`), the cursor standing on the opening one.
#[verifier::rlimit(50)]
pub fn read_seq(rdr: &mut Reader, end: &str) -> (r: RlRet)
    requires
        old(rdr).pos < old(rdr).tokens@.len(),
        end@ == ")"@ || end@ == "]"@ || end@ == "}"@,
        opens_seq(old(rdr).tokens@[old(rdr).pos as int]@),
        end@ == closer(old(rdr).tokens@[old(rdr).pos as int]@),
    ensures
        advances(r, *old(rdr), *final(rdr)),
        r matches Ok(v) ==> reads(texts(*old(rdr)), old(rdr).pos as int, v, final(rdr).pos as int),
        end@ == ")"@ ==> (r matches Ok(v) ==> v is List && meta_of(v) == RlVal::Nil),
        end@ == "]"@ ==> (r matches Ok(v) ==> v is Vector && meta_of(v) == RlVal::Nil),
        end@ == "}"@ ==> (r matches Ok(v) ==> v is Hash && meta_of(v) == RlVal::Nil),
        r is Err ==> forall|v: RlVal, q: int| !#[trigger] reads(texts(*old(rdr)), old(rdr).pos as int, v, q),
        plain_run(texts(*old(rdr)), old(rdr).pos + 1, end@) ==> (r matches Err(RlErr::ErrString(m)) && m@
            == eof_msg(end@)),
    decreases old(rdr).tokens@.len() - old(rdr).pos, 0int,
{
    let ghost toks = texts(*rdr);
    let ghost p0 = rdr.pos as int;
    let ghost open = toks[p0];
    let mut seq: Vec<RlVal> = Vec::new();
    let _ = rdr.next();
    let ghost start = rdr.pos;
    let ghost plain = plain_run(toks, start as int, end@);
    let ghost mut ps: Seq<int> = seq![start as int];
    let e = end.to_owned();
    loop
        invariant
            rdr.tokens == old(rdr).tokens,
            toks == texts(*old(rdr)),
            old(rdr).pos < start <= rdr.pos <= rdr.tokens@.len(),
            p0 == old(rdr).pos,
            start == p0 + 1,
            e@ == end@,
            open == toks[p0],
            plain == plain_run(toks, start as int, end@),
            opens_seq(open),
            closer(open) == end@,
            p0 < toks.len(),
            ps.len() == seq@.len() + 1,
            ps[0] == start,
            ps[seq@.len() as int] == rdr.pos,
            forall|i: int|
                0 <= i < seq@.len() ==> p0 < #[trigger] ps[i] && ps[i] < ps[i + 1] && ps[i + 1] <= rdr.pos
                    && toks[ps[i]] != end@,
            forall|i: int|
                0 <= i < seq@.len() ==> reads(toks, ps[i], #[trigger] seq@[i], ps[i + 1]),
        ensures
            rdr.tokens == old(rdr).tokens,
            start <= rdr.pos < rdr.tokens@.len(),
            rdr.tokens@[rdr.pos as int]@ == end@,
            ps.len() == seq@.len() + 1,
            ps[0] == start,
            ps[seq@.len() as int] == rdr.pos,
            forall|i: int|
                0 <= i < seq@.len() ==> p0 < #[trigger] ps[i] && ps[i] < ps[i + 1] && ps[i + 1] <= rdr.pos
                    && toks[ps[i]] != end@,
            forall|i: int|
                0 <= i < seq@.len() ==> reads(toks, ps[i], #[trigger] seq@[i], ps[i + 1]),
        decreases rdr.tokens@.len() - rdr.pos,
    {
        let token = match rdr.peek() {
            Ok(t) => t,
            Err(_) => {
                proof {
                    reveal_strlit("expected '");
                    reveal_strlit("', got EOF");
                    lemma_seq_stuck(toks, p0, seq@, ps, seq@.len() as int);
                }
                let m = String::from_str("expected '").concat(end).concat("', got EOF");
                return Err(RlErr::ErrString(m));
            },
        };
        if token == e {
            proof {
                if plain {
                    assert(plain_atom(toks[rdr.pos as int], end@));
                }
            }
            break;
        }
        let ghost before = rdr.pos as int;
        assert(toks[before] == token@);
        let ghost old_seq = seq@;
        let ghost old_ps = ps;
        assert(texts(*rdr) == toks);
        let form = match read_form(rdr) {
            Ok(f) => f,
            Err(err) => {
                proof {
                    lemma_seq_stuck(toks, p0, seq@, ps, seq@.len() as int);
                    if plain {
                        assert(plain_atom(toks[before], end@));
                    }
                }
                return Err(err);
            },
        };
        seq.push(form);
        proof {
            ps = ps.push(rdr.pos as int);
            assert(reads(toks, before, form, rdr.pos as int));
            let n = old_seq.len() as int;
            assert(seq@[n] == form);
            assert(ps[n] == before);
            assert(ps[n + 1] == rdr.pos);
            assert(p0 < before);
            assert(toks[before] != end@);
            assert(before < rdr.pos);
            assert forall|i: int|
                0 <= i < seq@.len() implies p0 < #[trigger] ps[i] && ps[i] < ps[i + 1] && ps[i + 1] <= rdr.pos
                    && toks[ps[i]] != end@ by {
                if i < old_seq.len() {
                    assert(ps[i] == old_ps[i] && ps[i + 1] == old_ps[i + 1]);
                }
            }
            assert forall|i: int|
                0 <= i < seq@.len() implies reads(toks, ps[i], #[trigger] seq@[i], ps[i + 1]) by {
                if i < old_seq.len() {
                    assert(seq@[i] == old_seq[i]);
                    assert(ps[i] == old_ps[i] && ps[i + 1] == old_ps[i + 1]);
                }
            }
        }
    }
    let ghost close = rdr.pos as int;
    assert(toks[close] == end@);
    let _ = rdr.next();
    proof {
        lemma_token_texts();
        assert(ps[0] == start);
    }
    let ghost items = seq@;
    let ghost q = rdr.pos as int;
    let ghost xps = ps;
    let r = if same_text(&e, ")") {
        Ok(list(seq))
    } else if same_text(&e, "]") {
        Ok(vector(seq))
    } else {
        hash_map(seq)
    };
    proof {
        if r is Err {
            assert(open == "{"@);
            assert(reads_each(toks, p0, q, closer(open), items, xps));
            lemma_hash_rejected(toks, p0, q, items, xps);
        }
        if r is Ok {
            let v = r->Ok_0;
            assert(toks[p0] == open);
            assert(toks[q - 1] == closer(open));
            assert(seq_shape(open, items, v));
            assert(reads_each(toks, p0, q, closer(open), items, ps));
            assert(macro_tag(open) is None);
            assert(reads(toks, p0, v, q));
        }
    }
    r
}

/// Reads the first form of `s`; tokens after it are not looked at.
pub fn read_str(s: String) -> (r: RlRet)
    ensures
        drop_comments(token_captures(s@)).len() == 0 ==> is_err_msg(r, "no input"@),
        drop_comments(token_captures(s@)).len() > 0 ==> form_result(
            drop_comments(token_captures(s@))[0],
            r,
        ),
        r matches Ok(v) ==> exists|q: int| #[trigger] reads(drop_comments(token_captures(s@)), 0, v, q),
        r is Err ==> forall|v: RlVal, q: int| !#[trigger] reads(drop_comments(token_captures(s@)), 0, v, q),
{
    let tokens = tokenize(s.as_str());
    if tokens.len() == 0 {
        assert(views(tokens@).len() == 0);
        return error("no input");
    }
    let mut rdr = Reader { tokens, pos: 0 };
    assert(texts(rdr) =~= drop_comments(token_captures(s@)));
    read_form(&mut rdr)
}

} // verus!
