//! Character-sequence utilities shared by the two codecs: splitting on a
//! separator, trimming whitespace, decimal digits, and ASCII case folding,
//! each as a spec-level model with a verified executable counterpart.

use vstd::prelude::*;

verus! {

/// The whitespace characters the codecs trim: space, tab, and carriage
/// return (so that lines of files with `\r\n` endings parse the same way).
pub open spec fn is_ws(c: char) -> bool {
    c == ' ' || c == '\t' || c == '\r'
}

/// Splitting a character sequence on a separator, as `str::split` does:
/// the result always has at least one piece, pieces never contain the
/// separator, and an empty input yields one empty piece.
pub open spec fn split_on(s: Seq<char>, sep: char) -> Seq<Seq<char>>
    decreases s.len(),
{
    if s.len() == 0 {
        seq![Seq::<char>::empty()]
    } else if s[0] == sep {
        seq![Seq::<char>::empty()] + split_on(s.drop_first(), sep)
    } else {
        let rest = split_on(s.drop_first(), sep);
        seq![seq![s[0]] + rest[0]] + rest.drop_first()
    }
}

/// True when `sep` occurs nowhere in `s`.
pub open spec fn has_no(s: Seq<char>, sep: char) -> bool {
    forall|i: int| 0 <= i < s.len() ==> s[i] != sep
}

/// Splitting yields at least one piece.
pub proof fn lemma_split_on_len(s: Seq<char>, sep: char)
    ensures
        split_on(s, sep).len() >= 1,
    decreases s.len(),
{
    if s.len() == 0 {
    } else if s[0] == sep {
    } else {
        lemma_split_on_len(s.drop_first(), sep);
    }
}

/// A sequence free of the separator splits into exactly itself.
pub proof fn lemma_split_on_whole(s: Seq<char>, sep: char)
    requires
        has_no(s, sep),
    ensures
        split_on(s, sep) == seq![s],
    decreases s.len(),
{
    if s.len() == 0 {
        assert(s =~= Seq::<char>::empty());
        assert(split_on(s, sep) =~= seq![s]);
    } else {
        assert(s[0] != sep);
        lemma_split_on_whole(s.drop_first(), sep);
        lemma_split_on_len(s.drop_first(), sep);
        assert(seq![s[0]] + s.drop_first() =~= s);
        assert(split_on(s, sep) =~= seq![s]);
    }
}

/// Splitting `a + [sep] + b` when `a` is free of the separator peels off
/// `a` as the first piece.
pub proof fn lemma_split_on_append(a: Seq<char>, b: Seq<char>, sep: char)
    requires
        has_no(a, sep),
    ensures
        split_on(a + seq![sep] + b, sep) == seq![a] + split_on(b, sep),
    decreases a.len(),
{
    let s = a + seq![sep] + b;
    if a.len() == 0 {
        assert(s.len() > 0);
        assert(s[0] == sep);
        assert(s.drop_first() =~= b);
        assert(split_on(s, sep) == seq![Seq::<char>::empty()] + split_on(b, sep));
        assert(a =~= Seq::<char>::empty());
        assert(split_on(s, sep) =~= seq![a] + split_on(b, sep));
    } else {
        assert(s[0] == a[0]);
        assert(s[0] != sep);
        assert(s.drop_first() =~= a.drop_first() + seq![sep] + b);
        lemma_split_on_append(a.drop_first(), b, sep);
        let rest = split_on(s.drop_first(), sep);
        lemma_split_on_len(b, sep);
        assert(rest == seq![a.drop_first()] + split_on(b, sep));
        assert(rest[0] == a.drop_first());
        assert(seq![s[0]] + rest[0] =~= a);
        assert(rest.drop_first() =~= split_on(b, sep));
        assert(split_on(s, sep) =~= seq![a] + split_on(b, sep));
    }
}

/// No piece of a split contains the separator.
pub proof fn lemma_split_on_pieces_free(s: Seq<char>, sep: char)
    ensures
        forall|k: int|
            0 <= k < split_on(s, sep).len() ==> has_no(#[trigger] split_on(s, sep)[k], sep),
    decreases s.len(),
{
    if s.len() == 0 {
    } else if s[0] == sep {
        lemma_split_on_pieces_free(s.drop_first(), sep);
    } else {
        lemma_split_on_pieces_free(s.drop_first(), sep);
        lemma_split_on_len(s.drop_first(), sep);
        let rest = split_on(s.drop_first(), sep);
        assert(has_no(rest[0], sep));
        assert(has_no(seq![s[0]] + rest[0], sep));
    }
}

/// A concatenation is free of a character exactly when both halves are.
pub proof fn lemma_has_no_append(a: Seq<char>, b: Seq<char>, c: char)
    ensures
        has_no(a + b, c) == (has_no(a, c) && has_no(b, c)),
{
    if has_no(a, c) && has_no(b, c) {
        assert forall|i: int| 0 <= i < (a + b).len() implies (a + b)[i] != c by {
            if i < a.len() {
                assert((a + b)[i] == a[i]);
            } else {
                assert((a + b)[i] == b[i - a.len()]);
            }
        }
    }
    if has_no(a + b, c) {
        assert forall|i: int| 0 <= i < a.len() implies a[i] != c by {
            assert((a + b)[i] == a[i]);
        }
        assert forall|i: int| 0 <= i < b.len() implies b[i] != c by {
            assert((a + b)[a.len() + i] == b[i]);
        }
    }
}

/// The concatenation of a sequence of pieces.
pub open spec fn concat_all(pieces: Seq<Seq<char>>) -> Seq<char>
    decreases pieces.len(),
{
    if pieces.len() == 0 {
        Seq::empty()
    } else {
        pieces[0] + concat_all(pieces.drop_first())
    }
}

/// `s` with every occurrence of `c` removed.
pub open spec fn drop_char(s: Seq<char>, c: char) -> Seq<char>
    decreases s.len(),
{
    if s.len() == 0 {
        s
    } else if s[0] == c {
        drop_char(s.drop_first(), c)
    } else {
        seq![s[0]] + drop_char(s.drop_first(), c)
    }
}

/// Concatenating the pieces of a split gives back the input with every
/// separator character removed.
pub proof fn lemma_concat_split(s: Seq<char>, sep: char)
    ensures
        concat_all(split_on(s, sep)) == drop_char(s, sep),
    decreases s.len(),
{
    if s.len() == 0 {
        let sp = split_on(s, sep);
        assert(sp == seq![Seq::<char>::empty()]);
        assert(sp.len() == 1);
        assert(sp.drop_first() =~= Seq::<Seq<char>>::empty());
        assert(concat_all(sp) == sp[0] + concat_all(sp.drop_first()));
        assert(concat_all(sp) =~= drop_char(s, sep));
    } else {
        lemma_concat_split(s.drop_first(), sep);
        lemma_split_on_len(s.drop_first(), sep);
        if s[0] == sep {
            let sp = split_on(s, sep);
            let rest = split_on(s.drop_first(), sep);
            assert(sp == seq![Seq::<char>::empty()] + rest);
            assert(sp.len() > 0);
            assert(sp.drop_first() =~= rest);
            assert(sp[0] =~= Seq::<char>::empty());
            assert(concat_all(sp) == sp[0] + concat_all(sp.drop_first()));
            assert(concat_all(sp) =~= concat_all(rest));
        } else {
            let rest = split_on(s.drop_first(), sep);
            assert(split_on(s, sep).drop_first() =~= rest.drop_first());
            assert(concat_all(split_on(s, sep)) =~= (seq![s[0]] + rest[0]) + concat_all(
                rest.drop_first(),
            ));
            assert(rest[0] + concat_all(rest.drop_first()) =~= concat_all(rest));
            assert(concat_all(split_on(s, sep)) =~= seq![s[0]] + concat_all(rest));
        }
    }
}

/// Removing a character leaves none of it behind.
pub proof fn lemma_drop_char_self_free(s: Seq<char>, c: char)
    ensures
        has_no(drop_char(s, c), c),
    decreases s.len(),
{
    if s.len() == 0 {
    } else {
        lemma_drop_char_self_free(s.drop_first(), c);
    }
}

/// Removing one character introduces no other.
pub proof fn lemma_drop_char_keeps_free(s: Seq<char>, c: char, d: char)
    requires
        has_no(s, d),
    ensures
        has_no(drop_char(s, c), d),
    decreases s.len(),
{
    if s.len() == 0 {
    } else {
        assert(has_no(s.drop_first(), d));
        lemma_drop_char_keeps_free(s.drop_first(), c, d);
        assert(s[0] != d);
    }
}

/// Removing a character a sequence lacks changes nothing.
pub proof fn lemma_drop_char_noop(s: Seq<char>, c: char)
    requires
        has_no(s, c),
    ensures
        drop_char(s, c) == s,
    decreases s.len(),
{
    if s.len() == 0 {
    } else {
        assert(has_no(s.drop_first(), c));
        lemma_drop_char_noop(s.drop_first(), c);
        assert(seq![s[0]] + s.drop_first() =~= s);
    }
}

/// A digit character is none of the characters the codecs treat as
/// structure: whitespace, the newline, the comment mark, the section mark.
pub proof fn lemma_digit_not_structural(c: char)
    requires
        is_digit(c),
    ensures
        !is_ws(c),
        c != ' ' && c != '\n' && c != '\t' && c != '\r' && c != '#' && c != '=',
{
}

/// `s` without its leading whitespace.
pub open spec fn trim_front(s: Seq<char>) -> Seq<char>
    decreases s.len(),
{
    if s.len() == 0 {
        s
    } else if is_ws(s[0]) {
        trim_front(s.drop_first())
    } else {
        s
    }
}

/// `s` without its trailing whitespace.
pub open spec fn trim_back(s: Seq<char>) -> Seq<char>
    decreases s.len(),
{
    if s.len() == 0 {
        s
    } else if is_ws(s.last()) {
        trim_back(s.drop_last())
    } else {
        s
    }
}

/// `s` without leading and trailing whitespace.
pub open spec fn trim(s: Seq<char>) -> Seq<char> {
    trim_back(trim_front(s))
}

/// Trimming the front of `s` leaves the suffix that starts at the first
/// non-whitespace character.
pub proof fn lemma_trim_front_skip(s: Seq<char>, i: int)
    requires
        0 <= i <= s.len(),
        forall|j: int| 0 <= j < i ==> is_ws(s[j]),
        i < s.len() ==> !is_ws(s[i]),
    ensures
        trim_front(s) == s.skip(i),
    decreases i,
{
    if i == 0 {
        if s.len() == 0 {
            assert(s.skip(0) =~= s);
        } else {
            assert(!is_ws(s[0]));
            assert(s.skip(0) =~= s);
        }
    } else {
        assert(is_ws(s[0]));
        assert(s.drop_first() =~= s.skip(1));
        lemma_trim_front_skip(s.drop_first(), i - 1);
        assert(s.drop_first().skip(i - 1) =~= s.skip(i));
    }
}

/// Trimming the back of `s` leaves the prefix that ends just after the
/// last non-whitespace character.
pub proof fn lemma_trim_back_take(s: Seq<char>, i: int)
    requires
        0 <= i <= s.len(),
        forall|j: int| i <= j < s.len() ==> is_ws(s[j]),
        i > 0 ==> !is_ws(s[i - 1]),
    ensures
        trim_back(s) == s.take(i),
    decreases s.len() - i,
{
    if i == s.len() {
        if s.len() == 0 {
            assert(s.take(i) =~= s);
        } else {
            assert(!is_ws(s.last()));
            assert(s.take(i) =~= s);
        }
    } else {
        assert(is_ws(s.last()));
        assert(s.drop_last() =~= s.take(s.len() - 1));
        lemma_trim_back_take(s.drop_last(), i);
        assert(s.drop_last().take(i) =~= s.take(i));
    }
}

/// Trimming the back of `a + b` trims only `b` when `b` keeps some
/// non-whitespace character, and otherwise reduces to trimming `a`.
pub proof fn lemma_trim_back_append(a: Seq<char>, b: Seq<char>)
    ensures
        trim_back(b).len() > 0 ==> trim_back(a + b) == a + trim_back(b),
        trim_back(b).len() == 0 ==> trim_back(a + b) == trim_back(a),
    decreases b.len(),
{
    if b.len() == 0 {
        assert(a + b =~= a);
    } else if is_ws(b.last()) {
        assert((a + b).last() == b.last());
        assert((a + b).drop_last() =~= a + b.drop_last());
        lemma_trim_back_append(a, b.drop_last());
    } else {
        assert((a + b).last() == b.last());
        assert(trim_back(a + b) == a + b);
        assert(trim_back(b) == b);
    }
}

/// The character a decimal digit prints as.
pub open spec fn digit_char(d: nat) -> char {
    if d == 0 {
        '0'
    } else if d == 1 {
        '1'
    } else if d == 2 {
        '2'
    } else if d == 3 {
        '3'
    } else if d == 4 {
        '4'
    } else if d == 5 {
        '5'
    } else if d == 6 {
        '6'
    } else if d == 7 {
        '7'
    } else if d == 8 {
        '8'
    } else {
        '9'
    }
}

/// Whether a character is a decimal digit.
pub open spec fn is_digit(c: char) -> bool {
    48 <= c as u32 <= 57
}

/// The value of a digit character.
pub open spec fn digit_val(c: char) -> nat {
    (c as u32 - 48) as nat
}

/// Whether every character of `s` is a decimal digit.
pub open spec fn all_digits(s: Seq<char>) -> bool {
    forall|i: int| 0 <= i < s.len() ==> is_digit(#[trigger] s[i])
}

/// The decimal numeral of `n`, most significant digit first, without
/// leading zeros (except for the single digit `0` itself).
pub open spec fn digits_of(n: nat) -> Seq<char>
    decreases n,
{
    if n < 10 {
        seq![digit_char(n)]
    } else {
        digits_of(n / 10).push(digit_char(n % 10))
    }
}

/// The numeric value of a sequence of digit characters, by Horner's rule.
pub open spec fn val_of(s: Seq<char>) -> nat
    decreases s.len(),
{
    if s.len() == 0 {
        0
    } else {
        10 * val_of(s.drop_last()) + digit_val(s.last())
    }
}

/// Whether a token is a well-formed numeral whose value fits in `usize`:
/// exactly the tokens the identifier parser accepts.
pub open spec fn parses_as_usize(s: Seq<char>) -> bool {
    s.len() > 0 && all_digits(s) && val_of(s) <= usize::MAX
}

/// Printing a number and reading the numeral back gives the number.
pub proof fn lemma_val_of_digits(n: nat)
    ensures
        val_of(digits_of(n)) == n,
    decreases n,
{
    if n < 10 {
        let s = digits_of(n);
        assert(s.len() == 1);
        assert(s.drop_last() =~= Seq::<char>::empty());
        assert(val_of(s.drop_last()) == 0);
        assert(s.last() == digit_char(n));
        assert(digit_val(digit_char(n)) == n);
        assert(val_of(s) == 10 * val_of(s.drop_last()) + digit_val(s.last()));
        assert(val_of(s) == n);
    } else {
        lemma_val_of_digits(n / 10);
        let s = digits_of(n);
        assert(s.drop_last() =~= digits_of(n / 10));
        assert(s.last() == digit_char(n % 10));
        assert(digit_val(digit_char(n % 10)) == n % 10);
        assert(s.len() > 0);
        assert(val_of(s) == 10 * val_of(s.drop_last()) + digit_val(s.last()));
        assert(val_of(s) == 10 * (n / 10) + n % 10);
        assert(n == 10 * (n / 10) + n % 10) by {
            vstd::arithmetic::div_mod::lemma_fundamental_div_mod(n as int, 10);
        }
    }
}

/// A numeral consists of digit characters alone; in particular it is
/// non-empty and contains no separator or structural character.
pub proof fn lemma_digits_of_digits(n: nat)
    ensures
        digits_of(n).len() > 0,
        all_digits(digits_of(n)),
    decreases n,
{
    if n < 10 {
        assert(is_digit(digit_char(n)));
    } else {
        lemma_digits_of_digits(n / 10);
        assert(is_digit(digit_char(n % 10)));
        assert(forall|i: int|
            0 <= i < digits_of(n).len() ==> is_digit(#[trigger] digits_of(n)[i]));
    }
}

/// Extending a numeral with more digits never shrinks its value.
pub proof fn lemma_val_of_prefix(s: Seq<char>, i: int)
    requires
        0 <= i <= s.len(),
    ensures
        val_of(s.take(i)) <= val_of(s),
    decreases s.len() - i,
{
    if i == s.len() {
        assert(s.take(i) =~= s);
    } else {
        lemma_val_of_prefix(s.drop_last(), i);
        assert(s.drop_last().take(i) =~= s.take(i));
        assert(val_of(s) == 10 * val_of(s.drop_last()) + digit_val(s.last()));
        assert(val_of(s.drop_last()) <= val_of(s));
    }
}

/// A numeral holds digit characters alone, so none of the characters
/// the codecs treat as structure.
pub proof fn lemma_digits_clean(n: nat)
    ensures
        has_no(digits_of(n), ' '),
        has_no(digits_of(n), '\n'),
        has_no(digits_of(n), '='),
{
    lemma_digits_of_digits(n);
    let d = digits_of(n);
    assert forall|i: int| 0 <= i < d.len() implies d[i] != ' ' && d[i] != '\n' && d[i]
        != '=' by {
        lemma_digit_not_structural(d[i]);
    }
}

/// ASCII case folding of one character: uppercase letters map to their
/// lowercase counterparts, all else is unchanged.
pub open spec fn lower_char(c: char) -> char {
    match c {
        'A' => 'a',
        'B' => 'b',
        'C' => 'c',
        'D' => 'd',
        'E' => 'e',
        'F' => 'f',
        'G' => 'g',
        'H' => 'h',
        'I' => 'i',
        'J' => 'j',
        'K' => 'k',
        'L' => 'l',
        'M' => 'm',
        'N' => 'n',
        'O' => 'o',
        'P' => 'p',
        'Q' => 'q',
        'R' => 'r',
        'S' => 's',
        'T' => 't',
        'U' => 'u',
        'V' => 'v',
        'W' => 'w',
        'X' => 'x',
        'Y' => 'y',
        'Z' => 'z',
        _ => c,
    }
}

/// ASCII case folding of a whole sequence.
pub open spec fn lower(s: Seq<char>) -> Seq<char> {
    s.map_values(|c: char| lower_char(c))
}

/// The characters of a string slice, in order.
pub fn str_chars(s: &str) -> (r: Vec<char>)
    ensures
        r@ == s@,
{
    let n = s.unicode_len();
    let mut r: Vec<char> = Vec::new();
    let mut i: usize = 0;
    while i < n
        invariant
            0 <= i <= n,
            n == s@.len(),
            r@ == s@.take(i as int),
        decreases n - i,
    {
        let c = s.get_char(i);
        r.push(c);
        proof {
            assert(s@.take(i + 1) =~= s@.take(i as int).push(s@[i as int]));
        }
        i = i + 1;
    }
    proof {
        assert(s@.take(n as int) =~= s@);
    }
    r
}

/// Relies on `String::push`: appending one character to a string appends
/// that character to its character sequence.
#[verifier::external_body]
fn push_char(s: &mut String, c: char)
    ensures
        final(s)@ == old(s)@.push(c),
{
    s.push(c);
}

/// A string holding exactly the given characters.
pub fn chars_string(v: &Vec<char>) -> (r: String)
    ensures
        r@ == v@,
{
    let mut r = String::new();
    let mut i: usize = 0;
    while i < v.len()
        invariant
            0 <= i <= v@.len(),
            r@ == v@.take(i as int),
        decreases v@.len() - i,
    {
        push_char(&mut r, v[i]);
        proof {
            assert(v@.take(i + 1) =~= v@.take(i as int).push(v@[i as int]));
        }
        i = i + 1;
    }
    proof {
        assert(v@.take(v@.len() as int) =~= v@);
    }
    r
}

/// The character sequences held by a sequence of character vectors.
pub open spec fn views_of(pieces: Seq<Vec<char>>) -> Seq<Seq<char>> {
    pieces.map_values(|p: Vec<char>| p@)
}

/// Splits `v` on the separator, as `split_on` describes.
pub fn split_on_char(v: &Vec<char>, sep: char) -> (r: Vec<Vec<char>>)
    ensures
        views_of(r@) == split_on(v@, sep),
{
    let mut done: Vec<Vec<char>> = Vec::new();
    let mut cur: Vec<char> = Vec::new();
    let mut i: usize = 0;
    proof {
        assert(v@.skip(0) =~= v@);
        assert(views_of(done@) + split_on(v@, sep) =~= split_on(v@, sep));
    }
    while i < v.len()
        invariant
            0 <= i <= v@.len(),
            cur@.len() <= i,
            cur@ == v@.subrange(i - cur@.len(), i as int),
            has_no(cur@, sep),
            split_on(v@, sep) == views_of(done@) + split_on(v@.skip(i - cur@.len()), sep),
        decreases v@.len() - i,
    {
        let c = v[i];
        let ghost start = i - cur@.len();
        if c == sep {
            proof {
                assert(v@.skip(start) =~= cur@ + seq![sep] + v@.skip(i + 1));
                lemma_split_on_append(cur@, v@.skip(i + 1), sep);
                assert(views_of(done@.push(cur)) =~= views_of(done@) + seq![cur@]);
                assert((views_of(done@) + seq![cur@]) + split_on(v@.skip(i + 1), sep)
                    =~= views_of(done@) + (seq![cur@] + split_on(v@.skip(i + 1), sep)));
            }
            done.push(cur);
            cur = Vec::new();
            proof {
                assert(cur@ =~= v@.subrange(i + 1, i + 1));
            }
        } else {
            cur.push(c);
            proof {
                assert(cur@ =~= v@.subrange(start, i + 1));
            }
        }
        i = i + 1;
    }
    proof {
        let start = i - cur@.len();
        assert(v@.skip(start) =~= cur@);
        lemma_split_on_whole(cur@, sep);
        assert(views_of(done@.push(cur)) =~= views_of(done@) + seq![cur@]);
        assert(split_on(v@, sep) =~= views_of(done@.push(cur)));
    }
    done.push(cur);
    done
}

/// The concatenation of the pieces of `pieces` from index `start` on,
/// without separators: how a description is rebuilt from its tokens.
pub fn concat_from(pieces: &Vec<Vec<char>>, start: usize) -> (r: Vec<char>)
    requires
        start <= pieces@.len(),
    ensures
        r@ == concat_all(views_of(pieces@).skip(start as int)),
{
    let ghost dv = views_of(pieces@);
    let mut r: Vec<char> = Vec::new();
    let mut i: usize = start;
    while i < pieces.len()
        invariant
            start <= i <= dv.len(),
            dv == views_of(pieces@),
            pieces@.len() == dv.len(),
            concat_all(dv.skip(start as int)) == r@ + concat_all(dv.skip(i as int)),
        decreases dv.len() - i,
    {
        proof {
            let tail = dv.skip(i as int);
            assert(tail.len() > 0);
            assert(tail[0] == dv[i as int]);
            assert(tail.drop_first() =~= dv.skip(i + 1));
            assert(concat_all(tail) == dv[i as int] + concat_all(dv.skip(i + 1)));
        }
        let ghost r0 = r@;
        let piece = &pieces[i];
        proof {
            assert(piece@ == dv[i as int]);
        }
        let mut j: usize = 0;
        while j < piece.len()
            invariant
                0 <= j <= piece@.len(),
                r@ == r0 + piece@.take(j as int),
            decreases piece@.len() - j,
        {
            r.push(piece[j]);
            proof {
                assert(r0 + piece@.take(j + 1) =~= (r0 + piece@.take(j as int)).push(
                    piece@[j as int],
                ));
            }
            j = j + 1;
        }
        proof {
            assert(piece@.take(piece@.len() as int) =~= piece@);
            assert(r@ + concat_all(dv.skip(i + 1)) =~= (r0 + dv[i as int]) + concat_all(
                dv.skip(i + 1),
            ));
            assert((r0 + dv[i as int]) + concat_all(dv.skip(i + 1)) =~= r0 + (dv[i as int]
                + concat_all(dv.skip(i + 1))));
            assert(r0 + concat_all(dv.skip(i as int)) =~= r0 + (dv[i as int] + concat_all(
                dv.skip(i + 1),
            )));
        }
        i = i + 1;
    }
    proof {
        assert(dv.skip(dv.len() as int) =~= Seq::<Seq<char>>::empty());
        assert(concat_all(dv.skip(dv.len() as int)) =~= Seq::<char>::empty());
        assert(r@ + Seq::<char>::empty() =~= r@);
    }
    r
}

/// Appends every character of `src` to `dst`.
pub fn append_chars(dst: &mut Vec<char>, src: &Vec<char>)
    ensures
        final(dst)@ == old(dst)@ + src@,
{
    let ghost orig = dst@;
    let mut i: usize = 0;
    proof {
        assert(orig + src@.take(0) =~= orig);
    }
    while i < src.len()
        invariant
            0 <= i <= src@.len(),
            dst@ == orig + src@.take(i as int),
        decreases src@.len() - i,
    {
        dst.push(src[i]);
        proof {
            assert(orig + src@.take(i + 1) =~= (orig + src@.take(i as int)).push(src@[i as int]));
        }
        i = i + 1;
    }
    proof {
        assert(orig + src@.take(src@.len() as int) =~= orig + src@);
    }
}

/// Whether `c` is codec whitespace.
pub fn ws(c: char) -> (r: bool)
    ensures
        r == is_ws(c),
{
    c == ' ' || c == '\t' || c == '\r'
}

/// `v` without leading and trailing whitespace, as `trim` describes.
pub fn trim_chars(v: &Vec<char>) -> (r: Vec<char>)
    ensures
        r@ == trim(v@),
{
    let mut a: usize = 0;
    while a < v.len() && ws(v[a])
        invariant
            0 <= a <= v@.len(),
            forall|j: int| 0 <= j < a ==> is_ws(v@[j]),
        decreases v@.len() - a,
    {
        a = a + 1;
    }
    proof {
        lemma_trim_front_skip(v@, a as int);
    }
    let ghost mid = v@.skip(a as int);
    let mut b: usize = v.len();
    while b > a && ws(v[b - 1])
        invariant
            a <= b <= v@.len(),
            forall|j: int| b <= j < v@.len() ==> is_ws(v@[j]),
        decreases b,
    {
        b = b - 1;
    }
    proof {
        assert(forall|j: int| b - a <= j < mid.len() ==> is_ws(#[trigger] mid[j]));
        lemma_trim_back_take(mid, b - a);
    }
    let mut r: Vec<char> = Vec::new();
    let mut i: usize = a;
    while i < b
        invariant
            a <= i <= b <= v@.len(),
            r@ == v@.subrange(a as int, i as int),
        decreases b - i,
    {
        r.push(v[i]);
        proof {
            assert(v@.subrange(a as int, i + 1) =~= v@.subrange(a as int, i as int).push(
                v@[i as int],
            ));
        }
        i = i + 1;
    }
    proof {
        assert(r@ =~= mid.take(b - a));
    }
    r
}

/// The identifier parser: accepts exactly the non-empty all-digit tokens
/// whose value fits in `usize`, and returns that value.
pub fn parse_usize(token: &Vec<char>) -> (r: Option<usize>)
    ensures
        match r {
            Some(n) => parses_as_usize(token@) && n as nat == val_of(token@),
            None => !parses_as_usize(token@),
        },
{
    if token.len() == 0 {
        return None;
    }
    let mut acc: u128 = 0;
    let mut i: usize = 0;
    while i < token.len()
        invariant
            0 <= i <= token@.len(),
            token@.len() > 0,
            all_digits(token@.take(i as int)),
            acc == val_of(token@.take(i as int)),
            acc <= usize::MAX,
        decreases token@.len() - i,
    {
        let c = token[i];
        let u = c as u32;
        if u < 48 || u > 57 {
            proof {
                assert(!is_digit(token@[i as int]));
            }
            return None;
        }
        proof {
            assert(token@.take(i + 1).drop_last() =~= token@.take(i as int));
            assert(token@.take(i + 1).last() == token@[i as int]);
        }
        let d = (u - 48) as u128;
        let new_acc = acc * 10 + d;
        if new_acc > usize::MAX as u128 {
            proof {
                assert(val_of(token@.take(i + 1)) == new_acc);
                lemma_val_of_prefix(token@, i + 1);
            }
            return None;
        }
        acc = new_acc;
        i = i + 1;
    }
    proof {
        assert(token@.take(token@.len() as int) =~= token@);
    }
    Some(acc as usize)
}

/// The character of one decimal digit.
pub fn digit(d: usize) -> (c: char)
    requires
        d < 10,
    ensures
        c == digit_char(d as nat),
{
    if d == 0 {
        '0'
    } else if d == 1 {
        '1'
    } else if d == 2 {
        '2'
    } else if d == 3 {
        '3'
    } else if d == 4 {
        '4'
    } else if d == 5 {
        '5'
    } else if d == 6 {
        '6'
    } else if d == 7 {
        '7'
    } else if d == 8 {
        '8'
    } else {
        '9'
    }
}

/// The decimal numeral of `n`, as `digits_of` describes.
pub fn usize_chars(n: usize) -> (r: Vec<char>)
    ensures
        r@ == digits_of(n as nat),
    decreases n,
{
    if n < 10 {
        let mut r: Vec<char> = Vec::new();
        r.push(digit(n));
        proof {
            assert(r@ =~= seq![digit_char(n as nat)]);
        }
        r
    } else {
        let mut r = usize_chars(n / 10);
        r.push(digit(n % 10));
        proof {
            assert((n as nat) / 10 == (n / 10) as nat);
            assert((n as nat) % 10 == (n % 10) as nat);
        }
        r
    }
}

/// Whether two character vectors hold the same characters.
pub fn eq_chars(a: &Vec<char>, b: &Vec<char>) -> (r: bool)
    ensures
        r == (a@ == b@),
{
    if a.len() != b.len() {
        return false;
    }
    let mut i: usize = 0;
    while i < a.len()
        invariant
            0 <= i <= a@.len(),
            a@.len() == b@.len(),
            forall|j: int| 0 <= j < i ==> a@[j] == b@[j],
        decreases a@.len() - i,
    {
        if a[i] != b[i] {
            return false;
        }
        i = i + 1;
    }
    proof {
        assert(a@ =~= b@);
    }
    true
}

/// ASCII case folding of one character, as `lower_char` describes.
pub fn fold_char(c: char) -> (r: char)
    ensures
        r == lower_char(c),
{
    match c {
        'A' => 'a',
        'B' => 'b',
        'C' => 'c',
        'D' => 'd',
        'E' => 'e',
        'F' => 'f',
        'G' => 'g',
        'H' => 'h',
        'I' => 'i',
        'J' => 'j',
        'K' => 'k',
        'L' => 'l',
        'M' => 'm',
        'N' => 'n',
        'O' => 'o',
        'P' => 'p',
        'Q' => 'q',
        'R' => 'r',
        'S' => 's',
        'T' => 't',
        'U' => 'u',
        'V' => 'v',
        'W' => 'w',
        'X' => 'x',
        'Y' => 'y',
        'Z' => 'z',
        _ => c,
    }
}

/// ASCII case folding of a whole vector, as `lower` describes.
pub fn fold_chars(v: &Vec<char>) -> (r: Vec<char>)
    ensures
        r@ == lower(v@),
{
    let mut r: Vec<char> = Vec::new();
    let mut i: usize = 0;
    while i < v.len()
        invariant
            0 <= i <= v@.len(),
            r@ == lower(v@.take(i as int)),
        decreases v@.len() - i,
    {
        r.push(fold_char(v[i]));
        proof {
            assert(lower(v@.take(i + 1)) =~= lower(v@.take(i as int)).push(
                lower_char(v@[i as int]),
            ));
        }
        i = i + 1;
    }
    proof {
        assert(v@.take(v@.len() as int) =~= v@);
    }
    r
}

} // verus!
