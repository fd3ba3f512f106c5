//! String utilities: building patch names, parsing them back, and
//! sanitizing names for use in file and side-set identifiers.

use vstd::prelude::*;
use vstd::string::StrSliceExecFns;

verus! {

/// What `char::is_alphanumeric` returns: whether the character is in one of
/// the Unicode letter or number categories.  The full table is Unicode
/// data; only the standard library knows it.
pub uninterp spec fn char_is_alphanumeric(c: char) -> bool;

/// Relies on `char::is_alphanumeric`: the result depends on the character
/// alone, by the Unicode character table.
#[verifier::external_body]
fn is_alphanumeric_char(c: char) -> (r: bool)
    ensures
        r == char_is_alphanumeric(c),
{
    c.is_alphanumeric()
}

/// Relies on `String::push`: appends exactly the one character.
#[verifier::external_body]
fn push_char(s: &mut String, c: char)
    ensures
        final(s)@ == old(s)@.push(c),
{
    s.push(c);
}

/// Character-wise string equality.
pub fn str_eq(a: &str, b: &str) -> (r: bool)
    ensures
        r == (a@ == b@),
{
    let la = a.unicode_len();
    let lb = b.unicode_len();
    if la != lb {
        proof {
            assert(a@.len() != b@.len());
        }
        return false;
    }
    let mut i: usize = 0;
    while i < la
        invariant
            la == a@.len(),
            la == b@.len(),
            0 <= i <= la,
            forall|j: int| 0 <= j < i ==> a@[j] == b@[j],
        decreases la - i,
    {
        if a.get_char(i) != b.get_char(i) {
            return false;
        }
        i += 1;
    }
    proof {
        assert(a@ =~= b@);
    }
    true
}

/// The decimal digit character for a value below ten.
pub open spec fn digit_char(d: nat) -> char
    recommends
        d < 10,
{
    ((d + 48) as u8) as char
}

/// The decimal representation of a number, most significant digit first.
pub open spec fn dec_str(n: nat) -> Seq<char>
    decreases n,
{
    if n < 10 {
        seq![digit_char(n)]
    } else {
        dec_str(n / 10).push(digit_char(n % 10))
    }
}

/// Digit bytes read back to front, as characters.
spec fn rev_chars(ds: Seq<u8>) -> Seq<char> {
    Seq::new(ds.len(), |i: int| ds[ds.len() - 1 - i] as char)
}

/// Render a number in decimal.
pub fn usize_to_string(n: usize) -> (r: String)
    ensures
        r@ == dec_str(n as nat),
{
    let mut digits: Vec<u8> = Vec::new();
    let mut m: usize = n;
    loop
        invariant_except_break
            digits@.len() == 0 ==> m == n,
            digits@.len() >= 1 ==> m > 0 && dec_str(n as nat) =~= dec_str(m as nat) + rev_chars(
                digits@,
            ),
        ensures
            digits@.len() >= 1,
            dec_str(n as nat) =~= rev_chars(digits@),
        decreases m + (if digits@.len() == 0 {
            1int
        } else {
            0int
        }),
    {
        let d: u8 = (m % 10) as u8 + 48;
        let ghost old_digits = digits@;
        let ghost old_m = m;
        digits.push(d);
        m = m / 10;
        proof {
            assert(d as char == digit_char((old_m % 10) as nat));
            assert(rev_chars(digits@) =~= seq![digit_char((old_m % 10) as nat)] + rev_chars(
                old_digits,
            ));
            if old_digits.len() == 0 {
                if m > 0 {
                    assert(dec_str(old_m as nat) =~= dec_str(m as nat).push(
                        digit_char((old_m % 10) as nat),
                    ));
                    assert(dec_str(n as nat) =~= dec_str(m as nat) + rev_chars(digits@));
                } else {
                    assert(dec_str(n as nat) =~= rev_chars(digits@));
                }
            } else {
                assert(dec_str(n as nat) =~= dec_str(old_m as nat) + rev_chars(old_digits));
                if m > 0 {
                    assert(dec_str(old_m as nat) =~= dec_str(m as nat).push(
                        digit_char((old_m % 10) as nat),
                    ));
                    assert(dec_str(m as nat) + rev_chars(digits@) =~= (dec_str(m as nat)
                        + seq![digit_char((old_m % 10) as nat)]) + rev_chars(old_digits));
                    assert(dec_str(m as nat) + seq![digit_char((old_m % 10) as nat)] =~= dec_str(
                        old_m as nat,
                    ));
                    assert(dec_str(n as nat) =~= dec_str(m as nat) + rev_chars(digits@));
                } else {
                    assert(dec_str(old_m as nat) =~= seq![digit_char((old_m % 10) as nat)]);
                    assert(rev_chars(digits@) =~= dec_str(old_m as nat) + rev_chars(old_digits));
                    assert(dec_str(n as nat) =~= rev_chars(digits@));
                }
            }
        }
        if m == 0 {
            break ;
        }
    }
    let mut r = String::new();
    let mut i: usize = digits.len();
    while i > 0
        invariant
            digits@.len() >= 1,
            0 <= i <= digits@.len(),
            r@ =~= rev_chars(digits@).subrange(0, digits@.len() - i),
        decreases i,
    {
        i -= 1;
        let c: u8 = digits[i];
        push_char(&mut r, c as char);
        proof {
            assert(r@ =~= rev_chars(digits@).subrange(0, digits@.len() - i));
        }
    }
    proof {
        assert(rev_chars(digits@).subrange(0, digits@.len() as int) =~= rev_chars(digits@));
    }
    r
}

/// How `sanitize_name` maps one character: letters, digits, and
/// underscores pass; everything else becomes an underscore.
pub open spec fn sanitize_name_char(c: char) -> char {
    if char_is_alphanumeric(c) || c == '_' {
        c
    } else {
        '_'
    }
}

/// Sanitize a name for use in side-set names: every character outside
/// letters, digits, and underscore becomes an underscore.
pub fn sanitize_name(name: &str) -> (r: String)
    ensures
        r@ == name@.map_values(|c: char| sanitize_name_char(c)),
{
    let len = name.unicode_len();
    let mut r = String::new();
    let mut i: usize = 0;
    while i < len
        invariant
            len == name@.len(),
            0 <= i <= len,
            r@ =~= name@.subrange(0, i as int).map_values(|c: char| sanitize_name_char(c)),
        decreases len - i,
    {
        let c = name.get_char(i);
        let keep = is_alphanumeric_char(c) || c == '_';
        if keep {
            push_char(&mut r, c);
        } else {
            push_char(&mut r, '_');
        }
        proof {
            assert(name@.subrange(0, i + 1) =~= name@.subrange(0, i as int).push(
                name@[i as int],
            ));
            assert(r@ =~= name@.subrange(0, i + 1).map_values(
                |c: char| sanitize_name_char(c),
            ));
        }
        i += 1;
    }
    proof {
        assert(name@.subrange(0, len as int) =~= name@);
    }
    r
}

/// How `sanitize_filename` maps one character: letters, digits,
/// underscores, and hyphens pass; everything else becomes an underscore.
pub open spec fn sanitize_filename_char(c: char) -> char {
    if char_is_alphanumeric(c) || c == '_' || c == '-' {
        c
    } else {
        '_'
    }
}

/// Sanitize a name for use as a file name: every character outside
/// letters, digits, underscore, and hyphen becomes an underscore.
pub fn sanitize_filename(name: &str) -> (r: String)
    ensures
        r@ == name@.map_values(|c: char| sanitize_filename_char(c)),
{
    let len = name.unicode_len();
    let mut r = String::new();
    let mut i: usize = 0;
    while i < len
        invariant
            len == name@.len(),
            0 <= i <= len,
            r@ =~= name@.subrange(0, i as int).map_values(|c: char| sanitize_filename_char(c)),
        decreases len - i,
    {
        let c = name.get_char(i);
        let keep = is_alphanumeric_char(c) || c == '_' || c == '-';
        if keep {
            push_char(&mut r, c);
        } else {
            push_char(&mut r, '_');
        }
        proof {
            assert(name@.subrange(0, i + 1) =~= name@.subrange(0, i as int).push(
                name@[i as int],
            ));
            assert(r@ =~= name@.subrange(0, i + 1).map_values(
                |c: char| sanitize_filename_char(c),
            ));
        }
        i += 1;
    }
    proof {
        assert(name@.subrange(0, len as int) =~= name@);
    }
    r
}

/// Index of the first occurrence of `c` in `s`, or `-1`.
pub open spec fn first_index_of(s: Seq<char>, c: char) -> int
    decreases s.len(),
{
    if s.len() == 0 {
        -1
    } else if s[0] == c {
        0
    } else {
        let r = first_index_of(s.drop_first(), c);
        if r == -1 {
            -1
        } else {
            r + 1
        }
    }
}

/// A witnessed first occurrence pins `first_index_of`.
proof fn lemma_first_index_at(s: Seq<char>, c: char, i: int)
    requires
        0 <= i < s.len(),
        s[i] == c,
        forall|j: int| 0 <= j < i ==> s[j] != c,
    ensures
        first_index_of(s, c) == i,
    decreases i,
{
    if i > 0 {
        assert(forall|j: int| 0 <= j < i - 1 ==> s.drop_first()[j] != c);
        lemma_first_index_at(s.drop_first(), c, i - 1);
    }
}

/// No occurrence at all pins `first_index_of` to `-1`.
proof fn lemma_first_index_none(s: Seq<char>, c: char)
    requires
        forall|j: int| 0 <= j < s.len() ==> s[j] != c,
    ensures
        first_index_of(s, c) == -1,
    decreases s.len(),
{
    if s.len() > 0 {
        assert(forall|j: int| 0 <= j < s.drop_first().len() ==> s.drop_first()[j] != c);
        lemma_first_index_none(s.drop_first(), c);
    }
}

/// Index of the last occurrence of `c` in `s`, or `-1`.
pub open spec fn last_index_of(s: Seq<char>, c: char) -> int
    decreases s.len(),
{
    if s.len() == 0 {
        -1
    } else if s.last() == c {
        s.len() - 1
    } else {
        last_index_of(s.drop_last(), c)
    }
}

/// A witnessed last occurrence pins `last_index_of`.
proof fn lemma_last_index_at(s: Seq<char>, c: char, i: int)
    requires
        0 <= i < s.len(),
        s[i] == c,
        forall|j: int| i < j < s.len() ==> s[j] != c,
    ensures
        last_index_of(s, c) == i,
    decreases s.len(),
{
    if i < s.len() - 1 {
        assert(forall|j: int| i < j < s.drop_last().len() ==> s.drop_last()[j] != c);
        lemma_last_index_at(s.drop_last(), c, i);
    }
}

/// No occurrence at all pins `last_index_of` to `-1`.
proof fn lemma_last_index_none(s: Seq<char>, c: char)
    requires
        forall|j: int| 0 <= j < s.len() ==> s[j] != c,
    ensures
        last_index_of(s, c) == -1,
    decreases s.len(),
{
    if s.len() > 0 {
        assert(forall|j: int| 0 <= j < s.drop_last().len() ==> s.drop_last()[j] != c);
        lemma_last_index_none(s.drop_last(), c);
    }
}

/// Scan for the first occurrence of a character.
fn find_first(s: &str, c: char) -> (r: Option<usize>)
    ensures
        match r {
            Some(i) => (i as int) < s@.len() && first_index_of(s@, c) == i as int,
            None => first_index_of(s@, c) == -1,
        },
{
    let len = s.unicode_len();
    let mut i: usize = 0;
    while i < len
        invariant
            len == s@.len(),
            0 <= i <= len,
            forall|j: int| 0 <= j < i ==> s@[j] != c,
        decreases len - i,
    {
        if s.get_char(i) == c {
            proof {
                lemma_first_index_at(s@, c, i as int);
            }
            return Some(i);
        }
        i += 1;
    }
    proof {
        lemma_first_index_none(s@, c);
    }
    None
}

/// Scan for the last occurrence of a character.
fn find_last(s: &str, c: char) -> (r: Option<usize>)
    ensures
        match r {
            Some(i) => (i as int) < s@.len() && last_index_of(s@, c) == i as int,
            None => last_index_of(s@, c) == -1,
        },
{
    let len = s.unicode_len();
    let mut i: usize = len;
    while i > 0
        invariant
            len == s@.len(),
            0 <= i <= len,
            forall|j: int| i <= j < len ==> s@[j] != c,
        decreases i,
    {
        i -= 1;
        if s.get_char(i) == c {
            proof {
                lemma_last_index_at(s@, c, i as int);
            }
            return Some(i);
        }
    }
    proof {
        lemma_last_index_none(s@, c);
    }
    None
}

/// Whether a character is one of the ten decimal digits.
pub open spec fn is_dec_digit(c: char) -> bool {
    48 <= (c as u32) <= 57
}

/// The value of a digit string, most significant digit first.
pub open spec fn digits_value(s: Seq<char>) -> int
    decreases s.len(),
{
    if s.len() == 0 {
        0
    } else {
        digits_value(s.drop_last()) * 10 + ((s.last() as u32) - 48)
    }
}

/// A nonempty string of decimal digits.
pub open spec fn all_dec_digits(s: Seq<char>) -> bool {
    s.len() >= 1 && forall|j: int| 0 <= j < s.len() ==> is_dec_digit(#[trigger] s[j])
}

/// What `str::parse::<usize>` returns: an optional leading plus sign, then
/// at least one decimal digit, with a value that fits.
pub open spec fn parse_usize_spec(s: Seq<char>) -> Option<usize> {
    let body = if s.len() >= 1 && s[0] == '+' {
        s.drop_first()
    } else {
        s
    };
    if all_dec_digits(body) && digits_value(body) <= usize::MAX {
        Some(digits_value(body) as usize)
    } else {
        None
    }
}

/// A digit string's value never shrinks as digits are appended.
proof fn lemma_digits_value_monotone(s: Seq<char>, k: int)
    requires
        0 <= k <= s.len(),
        forall|j: int| 0 <= j < s.len() ==> is_dec_digit(#[trigger] s[j]),
    ensures
        digits_value(s.subrange(0, k)) <= digits_value(s),
        digits_value(s) >= 0,
    decreases s.len(),
{
    if s.len() == 0 {
        assert(s.subrange(0, k) =~= s);
    } else {
        let d = s.drop_last();
        assert(forall|j: int| 0 <= j < d.len() ==> is_dec_digit(#[trigger] d[j]));
        if k <= s.len() - 1 {
            lemma_digits_value_monotone(d, k);
            assert(s.subrange(0, k) =~= d.subrange(0, k));
            assert(digits_value(s) == digits_value(d) * 10 + ((s.last() as u32) - 48));
            assert(digits_value(s) >= digits_value(d));
        } else {
            lemma_digits_value_monotone(d, d.len() as int);
            assert(s.subrange(0, k) =~= s);
        }
    }
}

/// Parse a nonempty decimal number as `str::parse::<usize>` does.
fn parse_usize(s: &str) -> (r: Option<usize>)
    ensures
        r == parse_usize_spec(s@),
{
    let len = s.unicode_len();
    if len == 0 {
        return None;
    }
    let start: usize = if s.get_char(0) == '+' {
        1
    } else {
        0
    };
    let ghost body = if s@[0] == '+' {
        s@.drop_first()
    } else {
        s@
    };
    proof {
        assert(body =~= s@.subrange(start as int, len as int));
    }
    if start == len {
        proof {
            assert(body.len() == 0);
        }
        return None;
    }
    let mut acc: usize = 0;
    let mut i: usize = start;
    while i < len
        invariant
            len == s@.len(),
            start <= 1,
            (start == 1) == (s@[0] == '+'),
            body == s@.subrange(start as int, len as int),
            body.len() >= 1,
            start <= i <= len,
            forall|j: int| 0 <= j < i - start ==> is_dec_digit(#[trigger] body[j]),
            acc as int == digits_value(body.subrange(0, i - start)),
        decreases len - i,
    {
        let c = s.get_char(i);
        let cu = c as u32;
        if cu < 48 || cu > 57 {
            proof {
                assert(body[i - start] == s@[i as int]);
                assert(!is_dec_digit(body[i - start]));
                assert(!all_dec_digits(body));
            }
            return None;
        }
        let d: usize = (cu - 48) as usize;
        let ghost prefix = body.subrange(0, i - start);
        proof {
            assert(body.subrange(0, i + 1 - start) =~= prefix.push(body[i - start]));
            assert(digits_value(prefix.push(body[i - start])) == digits_value(prefix) * 10 + (
            (body[i - start] as u32) - 48)) by {
                assert(prefix.push(body[i - start]).drop_last() =~= prefix);
            }
        }
        if acc > (usize::MAX - d) / 10 {
            proof {
                let q = (usize::MAX - d) as int / 10;
                vstd::arithmetic::div_mod::lemma_fundamental_div_mod((usize::MAX - d) as int, 10);
                assert((usize::MAX - d) as int == 10 * q + (usize::MAX - d) as int % 10);
                assert(acc as int * 10 >= (q + 1) * 10) by (nonlinear_arith)
                    requires
                        acc as int >= q + 1,
                ;
                assert(acc as int * 10 + d > usize::MAX);
                assert(body[i - start] == s@[i as int]);
                assert(digits_value(body.subrange(0, i + 1 - start)) == acc as int * 10 + d);
                assert(digits_value(body.subrange(0, i + 1 - start)) > usize::MAX);
                if all_dec_digits(body) {
                    lemma_digits_value_monotone(body, i + 1 - start);
                    assert(digits_value(body) > usize::MAX);
                }
                if s@[0] == '+' {
                    assert(body =~= s@.drop_first());
                } else {
                    assert(body =~= s@);
                }
                assert(parse_usize_spec(s@) is None);
            }
            return None;
        }
        proof {
            assert(acc as int * 10 + d <= usize::MAX) by {
                assert(acc <= (usize::MAX - d) / 10);
                assert(((usize::MAX - d) / 10) * 10 <= usize::MAX - d) by (nonlinear_arith)
                    requires
                        0 <= d <= usize::MAX,
                ;
                assert(acc as int * 10 <= ((usize::MAX - d) / 10) * 10) by (nonlinear_arith)
                    requires
                        0 <= acc <= (usize::MAX - d) / 10,
                ;
            }
        }
        acc = acc * 10 + d;
        i += 1;
    }
    proof {
        assert(body.subrange(0, len - start) =~= body);
        assert(all_dec_digits(body));
        assert(digits_value(body) == acc as int);
    }
    Some(acc)
}

/// The number at the tail of a name segment: the text after the last
/// underscore (the whole segment when it has none), parsed as a decimal
/// number.
pub open spec fn segment_number(seg: Seq<char>) -> Option<usize> {
    let u = last_index_of(seg, '_');
    parse_usize_spec(seg.subrange(u + 1, seg.len() as int))
}

/// Extract the number at the tail of one name segment.
fn parse_segment_number(seg: &str) -> (r: Option<usize>)
    ensures
        r == segment_number(seg@),
{
    let len = seg.unicode_len();
    let start: usize = match find_last(seg, '_') {
        Some(u) => u + 1,
        None => 0,
    };
    let tail = seg.substring_char(start, len);
    proof {
        assert(tail@ =~= seg@.subrange(last_index_of(seg@, '_') + 1, seg@.len() as int));
    }
    parse_usize(tail)
}

/// What `parse_surface_name` returns: the block id is the number at the
/// tail of the text before the first colon (underscore-separated), and the
/// patch id is the number at the tail of the text between the first and
/// second colons; either is `None` when its segment does not end in a
/// number.
pub open spec fn parse_surface_name_spec(name: Seq<char>) -> (Option<usize>, Option<usize>) {
    let ci = first_index_of(name, ':');
    let block_part = if ci == -1 {
        name
    } else {
        name.subrange(0, ci)
    };
    let patch_id = if ci == -1 {
        None
    } else {
        let rest = name.subrange(ci + 1, name.len() as int);
        let ci2 = first_index_of(rest, ':');
        let patch_part = if ci2 == -1 {
            rest
        } else {
            rest.subrange(0, ci2)
        };
        segment_number(patch_part)
    };
    (segment_number(block_part), patch_id)
}

/// Parse block and patch ids from a surface name such as
/// `Block_1:patch_4`.
pub fn parse_surface_name(name: &str) -> (r: (Option<usize>, Option<usize>))
    ensures
        r == parse_surface_name_spec(name@),
{
    let len = name.unicode_len();
    match find_first(name, ':') {
        None => {
            let block_id = parse_segment_number(name);
            (block_id, None)
        },
        Some(ci) => {
            let block_part = name.substring_char(0, ci);
            let block_id = parse_segment_number(block_part);
            let rest = name.substring_char(ci + 1, len);
            proof {
                assert(rest@ =~= name@.subrange(first_index_of(name@, ':') + 1, name@.len() as int));
            }
            let rest_len = rest.unicode_len();
            let patch_part = match find_first(rest, ':') {
                None => rest,
                Some(ci2) => rest.substring_char(0, ci2),
            };
            let patch_id = parse_segment_number(patch_part);
            (block_id, patch_id)
        },
    }
}

} // verus!
