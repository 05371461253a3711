use vstd::prelude::*;

verus! {

broadcast use vstd::seq_lib::group_seq_properties;

/// Appends one character to a `String` (std's `String::push`).
#[verifier::external_body]
pub(crate) fn push_char(s: &mut String, c: char)
    ensures
        final(s)@ == old(s)@.push(c),
{
    s.push(c);
}

/// The character views of a sequence of strings.
pub open spec fn views(v: Seq<String>) -> Seq<Seq<char>> {
    v.map_values(|t: String| t@)
}

/// The character views of a sequence of optional strings.
pub open spec fn option_views(v: Seq<Option<String>>) -> Seq<Option<Seq<char>>> {
    v.map_values(|o: Option<String>| match o {
        Some(t) => Some(t@),
        None => None,
    })
}

/// The characters at which text is cut into terms.
pub open spec fn is_symbol(c: char) -> bool {
    ||| c == ' '
    ||| c == ','
    ||| c == '.'
    ||| c == '_'
    ||| c == '-'
    ||| c == '/'
    ||| c == '{'
    ||| c == '}'
    ||| c == '"'
    ||| c == '\''
    ||| c == ';'
    ||| c == ':'
    ||| c == '\n'
    ||| c == '\\'
}

/// The pieces of `s` between the symbols, in order, empty pieces included:
/// a text with `k` symbols has `k + 1` pieces.
pub open spec fn split_symbols(s: Seq<char>) -> Seq<Seq<char>>
    decreases s.len(),
{
    if s.len() == 0 {
        seq![Seq::<char>::empty()]
    } else {
        let prev = split_symbols(s.drop_last());
        if is_symbol(s.last()) {
            prev.push(Seq::<char>::empty())
        } else {
            prev.update(prev.len() - 1, prev.last().push(s.last()))
        }
    }
}

/// Number of symbols in `s`.
pub open spec fn symbol_count(s: Seq<char>) -> nat
    decreases s.len(),
{
    if s.len() == 0 {
        0
    } else if is_symbol(s.last()) {
        symbol_count(s.drop_last()) + 1
    } else {
        symbol_count(s.drop_last())
    }
}

/// Law: a text with `k` symbols splits into `k + 1` pieces, and no piece
/// holds a symbol.
pub proof fn lemma_split_symbols(s: Seq<char>)
    ensures
        split_symbols(s).len() == symbol_count(s) + 1,
        forall|i: int, j: int|
            0 <= i < split_symbols(s).len() && 0 <= j < split_symbols(s)[i].len()
                ==> !is_symbol(#[trigger] split_symbols(s)[i][j]),
    decreases s.len(),
{
    if s.len() > 0 {
        lemma_split_symbols(s.drop_last());
        let prev = split_symbols(s.drop_last());
        let cur = split_symbols(s);
        if !is_symbol(s.last()) {
            assert forall|i: int, j: int| 0 <= i < cur.len() && 0 <= j < cur[i].len() implies !is_symbol(#[trigger] cur[i][j]) by {
                if i == cur.len() - 1 && j == cur[i].len() - 1 {
                } else if i == cur.len() - 1 {
                    assert(cur[i][j] == prev[i][j]);
                }
            }
        }
    }
}

/// The symbols of `s`, in order.
pub open spec fn symbols_in(s: Seq<char>) -> Seq<char> {
    s.filter(|c: char| is_symbol(c))
}

/// `pieces` put back together with `seps` between them: the first piece, then
/// each separator followed by the next piece.
pub open spec fn rejoin(pieces: Seq<Seq<char>>, seps: Seq<char>) -> Seq<char>
    decreases seps.len(),
{
    if seps.len() == 0 || pieces.len() == 0 {
        if pieces.len() > 0 { pieces[0] } else { Seq::<char>::empty() }
    } else {
        rejoin(pieces.drop_last(), seps.drop_last()) + seq![seps.last()] + pieces.last()
    }
}

/// Putting back a longer last piece gives a longer text.
proof fn lemma_rejoin_extend_last(pieces: Seq<Seq<char>>, seps: Seq<char>, c: char)
    requires
        pieces.len() == seps.len() + 1,
    ensures
        rejoin(pieces.update(pieces.len() - 1, pieces.last().push(c)), seps) == rejoin(pieces, seps).push(c),
{
    let longer = pieces.update(pieces.len() - 1, pieces.last().push(c));
    if seps.len() == 0 {
        assert(longer[0] == pieces[0].push(c));
    } else {
        assert(longer.drop_last() =~= pieces.drop_last());
        assert(longer.last() == pieces.last().push(c));
        assert(rejoin(longer, seps) =~= rejoin(pieces, seps).push(c));
    }
}

/// Law: the pieces of a text are the maximal runs between its symbols: there is
/// one more piece than there are symbols, no piece holds a symbol, and putting
/// the pieces back together with the symbols between them, in order, gives the
/// text back.
pub proof fn lemma_split_rejoins(s: Seq<char>)
    ensures
        split_symbols(s).len() == symbols_in(s).len() + 1,
        forall|i: int, j: int|
            0 <= i < split_symbols(s).len() && 0 <= j < split_symbols(s)[i].len()
                ==> !is_symbol(#[trigger] split_symbols(s)[i][j]),
        rejoin(split_symbols(s), symbols_in(s)) == s,
    decreases s.len(),
{
    lemma_split_symbols(s);
    if s.len() == 0 {
        assert(symbols_in(s) =~= Seq::<char>::empty()) by {
            reveal(Seq::filter);
        }
    } else {
        let init = s.drop_last();
        let c = s.last();
        lemma_split_rejoins(init);
        assert(init.push(c) == s);
        init.lemma_filter_push(c, |c: char| is_symbol(c));
        let prev = split_symbols(init);
        if is_symbol(c) {
            let cur = prev.push(Seq::<char>::empty());
            assert(cur.drop_last() =~= prev);
            assert(symbols_in(s).drop_last() =~= symbols_in(init));
            assert(rejoin(cur, symbols_in(s)) =~= s);
        } else {
            lemma_rejoin_extend_last(prev, symbols_in(init), c);
        }
    }
}

/// Whether `c` is one of the symbols that separate terms.
pub fn is_symbol_char(c: char) -> (res: bool)
    ensures
        res == is_symbol(c),
{
    c == ' ' || c == ',' || c == '.' || c == '_' || c == '-' || c == '/' || c == '{' || c == '}'
        || c == '"' || c == '\'' || c == ';' || c == ':' || c == '\n' || c == '\\'
}

/// The characters of a string slice, as a vector.
pub fn chars_of(s: &str) -> (res: Vec<char>)
    ensures
        res@ == s@,
{
    let mut res: Vec<char> = Vec::new();
    for c in it: s.chars()
        invariant
            res@ == it.seq().take(it.index()),
    {
        res.push(c);
    }
    res
}

/// Splits `s` at every symbol, keeping empty pieces, as `str::split` does
/// with the symbol characters as pattern.
pub fn split_terms(s: &str) -> (terms: Vec<String>)
    ensures
        views(terms@) == split_symbols(s@),
{
    let chars = chars_of(s);
    let mut terms: Vec<String> = Vec::new();
    let mut current = String::new();
    let mut i: usize = 0;
    while i < chars.len()
        invariant
            chars@ == s@,
            0 <= i <= chars.len(),
            views(terms@).push(current@) == split_symbols(chars@.take(i as int)),
        decreases chars.len() - i,
    {
        let c = chars[i];
        let ghost before = views(terms@).push(current@);
        proof {
            assert(chars@.take(i + 1).drop_last() == chars@.take(i as int));
            assert(chars@.take(i + 1).last() == c);
        }
        if is_symbol_char(c) {
            let ghost t0 = terms@;
            let finished = current;
            terms.push(finished);
            current = String::new();
            proof {
                assert(views(terms@) =~= views(t0).push(finished@));
                assert(views(terms@).push(current@) =~= before.push(Seq::<char>::empty()));
            }
        } else {
            push_char(&mut current, c);
            proof {
                assert(views(terms@).push(current@) =~= before.update(
                    before.len() - 1,
                    before.last().push(c),
                ));
            }
        }
        i = i + 1;
    }
    terms.push(current);
    proof {
        assert(chars@.take(i as int) == s@);
        assert(views(terms@) =~= views(terms@.drop_last()).push(current@));
    }
    terms
}

/// Whether `c` occurs in `s`.
pub fn contains_char(s: &str, c: char) -> (res: bool)
    ensures
        res == s@.contains(c),
{
    let chars = chars_of(s);
    let mut i: usize = 0;
    while i < chars.len()
        invariant
            chars@ == s@,
            0 <= i <= chars.len(),
            forall|j: int| 0 <= j < i ==> chars@[j] != c,
        decreases chars.len() - i,
    {
        if chars[i] == c {
            return true;
        }
        i = i + 1;
    }
    false
}

/// Whether `a` and `b` hold the same characters.
pub fn str_equals(a: &str, b: &str) -> (res: bool)
    ensures
        res == (a@ == b@),
{
    let x = chars_of(a);
    let y = chars_of(b);
    if x.len() != y.len() {
        return false;
    }
    let mut i: usize = 0;
    while i < x.len()
        invariant
            x@ == a@,
            y@ == b@,
            x.len() == y.len(),
            0 <= i <= x.len(),
            forall|j: int| 0 <= j < i ==> x@[j] == y@[j],
        decreases x.len() - i,
    {
        if x[i] != y[i] {
            return false;
        }
        i = i + 1;
    }
    proof {
        assert(a@ =~= b@);
    }
    true
}

/// The decimal digit character for `d < 10`.
pub open spec fn digit_char(d: nat) -> char {
    ((48 + d) as u8) as char
}

/// The decimal representation of `n`, without sign or leading zeros.
pub open spec fn decimal(n: nat) -> Seq<char>
    decreases n,
{
    if n < 10 {
        seq![digit_char(n)]
    } else {
        decimal(n / 10).push(digit_char(n % 10))
    }
}

/// The number that the decimal digits `s` stand for.
pub open spec fn digits_value(s: Seq<char>) -> int
    decreases s.len(),
{
    if s.len() == 0 {
        0
    } else {
        digits_value(s.drop_last()) * 10 + (s.last() as int - 48)
    }
}

/// Law: `decimal(n)` is made of the digits `0` to `9`, stands for `n`, and
/// begins with `0` only where it is `0` itself.
pub proof fn lemma_decimal_digits(n: nat)
    ensures
        decimal(n).len() >= 1,
        forall|i: int| 0 <= i < decimal(n).len() ==> '0' <= #[trigger] decimal(n)[i] <= '9',
        digits_value(decimal(n)) == n,
        decimal(n)[0] == '0' ==> n == 0,
    decreases n,
{
    let d = decimal(n);
    if n < 10 {
        assert(digit_char(n) as int == 48 + n) by {
            assert((48 + n) as u8 as int == 48 + n);
        }
        assert(d.drop_last() =~= Seq::<char>::empty());
        assert(d.last() == digit_char(n));
        assert(digits_value(d) == digits_value(d.drop_last()) * 10 + (d.last() as int - 48));
        assert(digits_value(Seq::<char>::empty()) == 0);
    } else {
        lemma_decimal_digits(n / 10);
        let m = n % 10;
        assert(digit_char(m) as int == 48 + m) by {
            assert((48 + m) as u8 as int == 48 + m);
        }
        let prev = decimal(n / 10);
        assert(d.drop_last() =~= prev);
        assert(d[0] == prev[0]);
        assert forall|i: int| 0 <= i < d.len() implies '0' <= #[trigger] d[i] <= '9' by {
            if i < prev.len() {
                assert(d[i] == prev[i]);
            }
        }
        assert(d.last() == digit_char(m));
        assert(digits_value(d) == digits_value(prev) * 10 + (d.last() as int - 48));
        assert(n == (n / 10) * 10 + m);
    }
}

/// Writes `n` in decimal, as `to_string` does for an unsigned integer.
pub fn decimal_string(n: u64) -> (res: String)
    ensures
        res@ == decimal(n as nat),
    decreases n,
{
    let d: u8 = (n % 10) as u8;
    let c = (48u8 + d) as char;
    if n < 10 {
        let mut s = String::new();
        push_char(&mut s, c);
        proof {
            assert(s@ =~= seq![digit_char(n as nat)]);
        }
        s
    } else {
        let mut s = decimal_string(n / 10);
        push_char(&mut s, c);
        s
    }
}

/// Reads each byte as the character with the same code (Latin-1).
pub fn latin1_string(bytes: &[u8]) -> (res: String)
    ensures
        res@ == bytes@.map_values(|b: u8| b as char),
{
    let mut res = String::new();
    let mut i: usize = 0;
    while i < bytes.len()
        invariant
            0 <= i <= bytes.len(),
            res@ == bytes@.take(i as int).map_values(|b: u8| b as char),
        decreases bytes.len() - i,
    {
        let c = bytes[i] as char;
        push_char(&mut res, c);
        i = i + 1;
        proof {
            assert(res@ =~= bytes@.take(i as int).map_values(|b: u8| b as char));
        }
    }
    proof {
        assert(bytes@.take(i as int) =~= bytes@);
    }
    res
}

} // verus!
