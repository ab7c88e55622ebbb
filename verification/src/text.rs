//! Text building blocks: decimal numerals, joins and list rendering.

use vstd::prelude::*;

verus! {

/// The numeral character of a decimal digit.
pub open spec fn digit_char(d: nat) -> char {
    if d == 0 { '0' }
    else if d == 1 { '1' }
    else if d == 2 { '2' }
    else if d == 3 { '3' }
    else if d == 4 { '4' }
    else if d == 5 { '5' }
    else if d == 6 { '6' }
    else if d == 7 { '7' }
    else if d == 8 { '8' }
    else { '9' }
}

/// The decimal numeral of `n`, most significant digit first, without
/// leading zeros (`0` is written `"0"`).
pub open spec fn decimal(n: nat) -> Seq<char>
    decreases n,
{
    if n < 10 {
        seq![digit_char(n)]
    } else {
        decimal(n / 10).push(digit_char(n % 10))
    }
}

/// A string holding the single digit `d`.
fn digit_string(d: u128) -> (r: String)
    requires
        d < 10,
    ensures
        r@ == seq![digit_char(d as nat)],
{
    let digits = "0123456789";
    proof {
        reveal_strlit("0123456789");
    }
    let du = d as usize;
    String::from_str(digits.substring_char(du, du + 1))
}

/// Writes `n` in decimal, as `Display` does for unsigned integers.
pub fn decimal_string(n: u128) -> (r: String)
    ensures
        r@ == decimal(n as nat),
    decreases n,
{
    if n < 10 {
        digit_string(n)
    } else {
        let mut s = decimal_string(n / 10);
        let d = digit_string(n % 10);
        s.append(d.as_str());
        s
    }
}

} // verus!

verus! {

/// Appends `item` to `acc` with `sep` in between; an empty `acc` is
/// replaced by `item` instead.
pub open spec fn join_step(acc: Seq<char>, item: Seq<char>, sep: Seq<char>) -> Seq<char> {
    if acc.len() == 0 {
        item
    } else {
        acc + sep + item
    }
}

/// The items with `sep` between each two neighbours, as `[..].join(sep)`.
pub open spec fn join(items: Seq<Seq<char>>, sep: Seq<char>) -> Seq<char>
    decreases items.len(),
{
    if items.len() == 0 {
        Seq::empty()
    } else if items.len() == 1 {
        items[0]
    } else {
        join(items.drop_last(), sep) + sep + items.last()
    }
}

/// The name under which a basic block is shown: `bb` and its index.
pub open spec fn block_label(n: nat) -> Seq<char> {
    "bb"@ + decimal(n)
}

/// A list of blocks shown as `Debug` shows a vector of block names:
/// `[bb1, bb4]`.
pub open spec fn block_list(blocks: Seq<usize>) -> Seq<char> {
    "["@ + join(blocks.map_values(|b: usize| block_label(b as nat)), ", "@) + "]"@
}

/// Shows block `n` as `bb` and its index.
pub fn block_label_string(n: usize) -> (r: String)
    ensures
        r@ == block_label(n as nat),
{
    let mut s = String::from_str("bb");
    let d = decimal_string(n as u128);
    s.append(d.as_str());
    s
}

/// Shows a list of blocks as `[bb0, bb3]`.
pub fn block_list_string(blocks: &Vec<usize>) -> (r: String)
    ensures
        r@ == block_list(blocks@),
{
    let ghost labels = blocks@.map_values(|b: usize| block_label(b as nat));
    let mut body = String::new();
    let mut i: usize = 0;
    while i < blocks.len()
        invariant
            0 <= i <= blocks.len(),
            labels == blocks@.map_values(|b: usize| block_label(b as nat)),
            body@ == join(labels.take(i as int), ", "@),
        decreases blocks.len() - i,
    {
        let label = block_label_string(blocks[i]);
        if i > 0 {
            body.append(", ");
        }
        body.append(label.as_str());
        proof {
            assert(labels.take(i + 1).drop_last() =~= labels.take(i as int));
        }
        i = i + 1;
    }
    proof {
        assert(labels.take(blocks.len() as int) =~= labels);
    }
    let mut r = String::from_str("[");
    r.append(body.as_str());
    r.append("]");
    r
}

/// The position of the first `c` in `s`, if there is one.
pub open spec fn find_char(s: Seq<char>, c: char) -> Option<nat>
    decreases s.len(),
{
    if s.len() == 0 {
        None
    } else if s[0] == c {
        Some(0)
    } else {
        match find_char(s.drop_first(), c) {
            Some(k) => Some(k + 1),
            None => None,
        }
    }
}

/// Shifts a found position by `by`.
pub open spec fn shift(p: Option<nat>, by: nat) -> Option<nat> {
    match p {
        Some(k) => Some(k + by),
        None => None,
    }
}

/// Where the first `i` characters hold no `c`, the search may start at `i`.
proof fn lemma_find_char_skip(s: Seq<char>, c: char, i: int)
    requires
        0 <= i <= s.len(),
        forall|j: int| 0 <= j < i ==> s[j] != c,
    ensures
        find_char(s, c) == shift(find_char(s.skip(i), c), i as nat),
    decreases i,
{
    if i == 0 {
        assert(s.skip(0) =~= s);
        match find_char(s, c) {
            Some(k) => {},
            None => {},
        }
    } else {
        lemma_find_char_skip(s.drop_first(), c, i - 1);
        assert(s.drop_first().skip(i - 1) =~= s.skip(i));
    }
}

/// The position of the first `c` in `s`, as `str::find` with a character
/// pattern counts it in characters.
pub fn find_char_in(s: &str, c: char) -> (r: Option<usize>)
    ensures
        match r {
            Some(k) => find_char(s@, c) == Some(k as nat),
            None => find_char(s@, c) is None,
        },
{
    let n = s.unicode_len();
    let mut i: usize = 0;
    while i < n
        invariant
            n == s@.len(),
            0 <= i <= n,
            forall|j: int| 0 <= j < i ==> s@[j] != c,
        decreases n - i,
    {
        if s.get_char(i) == c {
            proof {
                lemma_find_char_skip(s@, c, i as int);
                assert(s@.skip(i as int)[0] == c);
            }
            return Some(i);
        }
        i = i + 1;
    }
    proof {
        lemma_find_char_skip(s@, c, n as int);
        assert(s@.skip(n as int).len() == 0);
    }
    None
}

/// Names what `{:?}` makes of a string: `str`'s `Debug` output, the text
/// in double quotes with its special characters escaped.
pub uninterp spec fn debug_quoted(s: Seq<char>) -> Seq<char>;

/// Formats `s` with std's `Debug` for `str` (`format!("{:?}", s)`).
/// Nothing is claimed of the escaping rules: the result is named
/// `debug_quoted` of the text.
#[verifier::external_body]
pub(crate) fn debug_string(s: &str) -> (r: String)
    ensures
        r@ == debug_quoted(s@),
{
    format!("{:?}", s)
}

} // verus!

verus! {

/// A found position lies inside the text and holds the character.
pub proof fn lemma_find_char_found(s: Seq<char>, c: char)
    ensures
        find_char(s, c) matches Some(k) ==> k < s.len() && s[k as int] == c,
        find_char(s, c) is None ==> !s.contains(c),
    decreases s.len(),
{
    if s.len() > 0 && s[0] != c {
        lemma_find_char_found(s.drop_first(), c);
        if find_char(s, c) is None {
            assert forall|j: int| 0 <= j < s.len() implies s[j] != c by {
                if j > 0 {
                    assert(s.drop_first()[j - 1] == s[j]);
                }
            }
        }
    }
}

} // verus!

verus! {

/// Pushing a string pushes its text onto the deep view.
pub proof fn lemma_deep_view_push(v0: Vec<String>, v1: Vec<String>, x: String)
    requires
        v1@ == v0@.push(x),
    ensures
        v1.deep_view() == v0.deep_view().push(x@),
{
    assert(v1.deep_view() =~= v0.deep_view().push(x@)) by {
        assert forall|j: int| 0 <= j < v1@.len() implies v1.deep_view()[j] == v0.deep_view().push(x@)[j] by {
            if j < v0@.len() {
                assert(v1@[j] == v0@[j]);
            }
        }
    }
}

} // verus!

verus! {

/// Appends `more` to `lines`.
pub fn append_lines(lines: &mut Vec<String>, more: Vec<String>)
    ensures
        final(lines).deep_view() == old(lines).deep_view() + more.deep_view(),
{
    let ghost base = lines.deep_view();
    let ghost m0 = more.deep_view();
    let mut i: usize = 0;
    while i < more.len()
        invariant
            m0 == more.deep_view(),
            0 <= i <= more@.len(),
            lines@.len() == base.len() + i,
            lines.deep_view() == base + m0.take(i as int),
        decreases more@.len() - i,
    {
        let x = more[i].clone();
        let ghost l0 = *lines;
        let ghost xg = x;
        lines.push(x);
        proof {
            lemma_deep_view_push(l0, *lines, xg);
            assert(lines.deep_view() =~= base + m0.take(i + 1));
        }
        i = i + 1;
    }
    proof {
        assert(m0.take(more@.len() as int) =~= m0);
    }
}

} // verus!

verus! {

/// The value of a numeral character.
pub open spec fn digit_value(c: char) -> nat {
    if c == '1' { 1 }
    else if c == '2' { 2 }
    else if c == '3' { 3 }
    else if c == '4' { 4 }
    else if c == '5' { 5 }
    else if c == '6' { 6 }
    else if c == '7' { 7 }
    else if c == '8' { 8 }
    else if c == '9' { 9 }
    else { 0 }
}

/// Whether `c` is one of the characters `0` to `9`.
pub open spec fn is_digit(c: char) -> bool {
    c == '0' || c == '1' || c == '2' || c == '3' || c == '4' || c == '5' || c == '6' || c == '7'
        || c == '8' || c == '9'
}

/// The number that a string of numeral characters denotes in base ten.
pub open spec fn numeral_value(s: Seq<char>) -> nat
    decreases s.len(),
{
    if s.len() == 0 {
        0
    } else {
        numeral_value(s.drop_last()) * 10 + digit_value(s.last())
    }
}

/// `decimal(n)` is a numeral for `n`: it is made of numeral characters only,
/// denotes `n` in base ten, and has no leading zero.
pub proof fn lemma_decimal_denotes(n: nat)
    ensures
        decimal(n).len() >= 1,
        forall|i: int| 0 <= i < decimal(n).len() ==> is_digit(#[trigger] decimal(n)[i]),
        numeral_value(decimal(n)) == n,
        n >= 10 ==> decimal(n)[0] != '0',
    decreases n,
{
    if n >= 10 {
        lemma_decimal_denotes(n / 10);
        let d = (n % 10) as nat;
        assert(decimal(n) == decimal(n / 10).push(digit_char(d)));
        assert(decimal(n).drop_last() =~= decimal(n / 10));
        assert(digit_value(digit_char(d)) == d);
        assert(numeral_value(decimal(n)) == numeral_value(decimal(n / 10)) * 10 + d);
        assert((n / 10) * 10 + n % 10 == n);
        assert forall|i: int| 0 <= i < decimal(n).len() implies is_digit(#[trigger] decimal(n)[i]) by {
            if i < decimal(n / 10).len() {
                assert(decimal(n)[i] == decimal(n / 10)[i]);
            }
        }
        assert(decimal(n)[0] == decimal(n / 10)[0]);
        if n / 10 < 10 {
            assert(decimal(n / 10) == seq![digit_char(n / 10)]);
        }
    } else {
        assert(decimal(n) == seq![digit_char(n)]);
        assert(decimal(n).drop_last() =~= Seq::<char>::empty());
        assert(digit_value(digit_char(n)) == n);
        assert(numeral_value(decimal(n)) == numeral_value(Seq::<char>::empty()) * 10 + digit_value(digit_char(n)));
    }
}

/// Different numbers have different numerals.
pub proof fn lemma_decimal_injective(a: nat, b: nat)
    requires
        decimal(a) == decimal(b),
    ensures
        a == b,
{
    lemma_decimal_denotes(a);
    lemma_decimal_denotes(b);
}

} // verus!

verus! {

/// `find_char` finds the first occurrence: the position found holds `c`
/// and no earlier position does; `None` means `c` does not occur.
pub proof fn lemma_find_char_first(s: Seq<char>, c: char)
    ensures
        find_char(s, c) matches Some(k) ==> k < s.len() && s[k as int] == c && forall|j: int|
            0 <= j < k ==> s[j] != c,
        find_char(s, c) is None ==> forall|j: int| 0 <= j < s.len() ==> s[j] != c,
    decreases s.len(),
{
    lemma_find_char_found(s, c);
    if s.len() > 0 && s[0] != c {
        lemma_find_char_first(s.drop_first(), c);
        if let Some(k) = find_char(s, c) {
            assert forall|j: int| 0 <= j < k implies s[j] != c by {
                if j > 0 {
                    assert(s[j] == s.drop_first()[j - 1]);
                }
            }
        }
        if find_char(s, c) is None {
            assert forall|j: int| 0 <= j < s.len() implies s[j] != c by {
                assert(!s.contains(c));
            }
        }
    }
}

/// The list of no blocks is `[]`; one more block adds `, ` (after a
/// non-empty list), `bb` and its numeral before the closing `]`.
pub proof fn lemma_block_list_push(bs: Seq<usize>, b: usize)
    ensures
        block_list(Seq::empty()) == "[]"@,
        block_list(seq![b]) == "[bb"@ + decimal(b as nat) + "]"@,
        bs.len() > 0 ==> block_list(bs.push(b)) == block_list(bs).drop_last() + ", bb"@ + decimal(
            b as nat,
        ) + "]"@,
{
    reveal_strlit("[]");
    reveal_strlit("[");
    reveal_strlit("]");
    reveal_strlit("bb");
    reveal_strlit("[bb");
    reveal_strlit(", ");
    reveal_strlit(", bb");
    let f = |x: usize| block_label(x as nat);
    assert(Seq::<usize>::empty().map_values(f) =~= Seq::<Seq<char>>::empty());
    assert("["@ + join(Seq::<Seq<char>>::empty(), ", "@) + "]"@ =~= "[]"@);
    assert(seq![b].map_values(f) =~= seq![block_label(b as nat)]);
    assert("["@ + block_label(b as nat) + "]"@ =~= "[bb"@ + decimal(b as nat) + "]"@);
    if bs.len() > 0 {
        let ls = bs.map_values(f);
        assert(bs.push(b).map_values(f) =~= ls.push(block_label(b as nat)));
        assert(ls.push(block_label(b as nat)).drop_last() =~= ls);
        let j = join(ls, ", "@);
        assert(join(ls.push(block_label(b as nat)), ", "@) == j + ", "@ + block_label(b as nat));
        assert(("["@ + j + "]"@).drop_last() =~= "["@ + j);
        assert("["@ + (j + ", "@ + block_label(b as nat)) + "]"@ =~= "["@ + j + ", bb"@ + decimal(b as nat)
            + "]"@);
    }
}

} // verus!
