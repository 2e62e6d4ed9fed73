//! Names of the files that trace data is written to, file size settings, and
//! finding a process by name.
use vstd::prelude::*;
use vstd::string::StrSliceExecFns;

verus! {

/// The decimal digit `d` as a character.
pub open spec fn digit_char(d: nat) -> char {
    ((48 + d) as u32) as char
}

/// The decimal form of `n`, without sign or leading zeros.
pub open spec fn decimal(n: nat) -> Seq<char>
    decreases n,
{
    if n < 10 {
        seq![digit_char(n)]
    } else {
        decimal(n / 10) + seq![digit_char(n % 10)]
    }
}

/// The digit `d` is the character `d` places after '0'.
proof fn lemma_digit_char(d: nat)
    requires
        d < 10,
    ensures
        digit_char(d) as u32 == 48 + d,
        '0' <= digit_char(d) <= '9',
        d != 0 ==> digit_char(d) != '0',
{
    assert(('0' as u32) == 48);
    assert(('9' as u32) == 57);
}

/// The decimal form of `n` is what reading digits back gives `n` from: it
/// is made of the digits '0' to '9', has no leading zero, and read back digit
/// by digit (each worth its distance from '0') it is `n`.
pub proof fn lemma_decimal_spells(n: nat)
    ensures
        decimal(n).len() > 0,
        n >= 10 ==> decimal(n).len() > 1,
        forall|i: int| 0 <= i < decimal(n).len() ==> '0' <= #[trigger] decimal(n)[i] <= '9',
        digits_value(decimal(n)) == n,
        decimal(n).len() > 1 ==> decimal(n)[0] != '0',
    decreases n,
{
    lemma_digit_char(n % 10);
    if n < 10 {
        assert(decimal(n).drop_last() =~= Seq::<char>::empty());
        assert(digits_value(decimal(n)) == digits_value(decimal(n).drop_last()) * 10 + ((decimal(n).last() as u32) - 48) as nat);
    } else {
        lemma_decimal_spells(n / 10);
        if n / 10 < 10 {
            lemma_digit_char(n / 10);
            assert(decimal(n / 10)[0] == digit_char(n / 10));
        }
        let d = decimal(n / 10);
        let s = decimal(n);
        assert(s.drop_last() =~= d);
        assert forall|i: int| 0 <= i < s.len() implies '0' <= #[trigger] s[i] <= '9' by {
            if i < d.len() {
                assert(s[i] == d[i]);
            }
        }
        assert(s[0] == d[0]);
        assert(digits_value(s) == digits_value(d) * 10 + ((s.last() as u32) - 48) as nat);
        assert(n == (n / 10) * 10 + n % 10);
    }
}

/// Different numbers have different decimal forms.
pub proof fn lemma_decimal_injective(m: nat, n: nat)
    requires
        decimal(m) == decimal(n),
    ensures
        m == n,
{
    lemma_decimal_spells(m);
    lemma_decimal_spells(n);
}

/// A number in decimal reads back as itself, as `usize::from_str` reads it.
pub proof fn lemma_unsigned_literal_of_decimal(n: nat)
    ensures
        unsigned_literal(decimal(n)) == Some(n),
{
    lemma_decimal_spells(n);
    assert(decimal(n)[0] != '+');
    assert forall|i: int| 0 <= i < decimal(n).len() implies #[trigger] is_digit(decimal(n)[i]) by {}
}

/// The name `{dir}\{time}-{idx}.{suffix}` of the file for trace data of
/// processor `idx`, started at `time` (seconds since the epoch).
pub open spec fn file_name(time: u64, idx: u32, dir: Seq<char>, suffix: Seq<char>) -> Seq<char> {
    dir + seq!['\\'] + decimal(time as nat) + seq!['-'] + decimal(idx as nat) + seq!['.'] + suffix
}

/// Where two texts are each digits, then `sep` (not a digit), then a rest,
/// and are equal, their digits are the same and so are their rests.
proof fn lemma_split_at_separator(x: Seq<char>, y: Seq<char>, sep: char, r1: Seq<char>, r2: Seq<char>)
    requires
        forall|i: int| 0 <= i < x.len() ==> '0' <= #[trigger] x[i] <= '9',
        forall|i: int| 0 <= i < y.len() ==> '0' <= #[trigger] y[i] <= '9',
        !('0' <= sep <= '9'),
        x + seq![sep] + r1 == y + seq![sep] + r2,
    ensures
        x == y,
        r1 == r2,
{
    let a = x + seq![sep] + r1;
    let b = y + seq![sep] + r2;
    if x.len() < y.len() {
        assert(a[x.len() as int] == sep);
        assert(b[x.len() as int] == y[x.len() as int]);
    }
    if y.len() < x.len() {
        assert(b[y.len() as int] == sep);
        assert(a[y.len() as int] == x[y.len() as int]);
    }
    assert(x =~= a.subrange(0, x.len() as int));
    assert(y =~= b.subrange(0, y.len() as int));
    assert(r1 =~= a.subrange(x.len() as int + 1, a.len() as int));
    assert(r2 =~= b.subrange(y.len() as int + 1, b.len() as int));
}

/// Each processor's file, and each trace's, has a name of its own: in the
/// same folder and with the same suffix, different start times or different
/// processors give different names.
pub proof fn lemma_file_names_differ(t1: u64, i1: u32, t2: u64, i2: u32, dir: Seq<char>, suffix: Seq<char>)
    requires
        t1 != t2 || i1 != i2,
    ensures
        file_name(t1, i1, dir, suffix) != file_name(t2, i2, dir, suffix),
{
    let a = file_name(t1, i1, dir, suffix);
    let b = file_name(t2, i2, dir, suffix);
    if a == b {
        let d1 = decimal(t1 as nat);
        let d2 = decimal(t2 as nat);
        let e1 = decimal(i1 as nat);
        let e2 = decimal(i2 as nat);
        lemma_decimal_spells(t1 as nat);
        lemma_decimal_spells(t2 as nat);
        lemma_decimal_spells(i1 as nat);
        lemma_decimal_spells(i2 as nat);
        let s1 = e1 + seq!['.'] + suffix;
        let s2 = e2 + seq!['.'] + suffix;
        let ra = d1 + seq!['-'] + s1;
        let rb = d2 + seq!['-'] + s2;
        let k: int = dir.len() as int + 1;
        assert(a =~= dir + seq!['\\'] + ra);
        assert(b =~= dir + seq!['\\'] + rb);
        assert(ra =~= a.subrange(k, a.len() as int));
        assert(rb =~= b.subrange(k, b.len() as int));
        lemma_split_at_separator(d1, d2, '-', s1, s2);
        lemma_decimal_injective(t1 as nat, t2 as nat);
        lemma_split_at_separator(e1, e2, '.', suffix, suffix);
        lemma_decimal_injective(i1 as nat, i2 as nat);
    }
}

/// The decimal digit `d` as a string.
fn digit_str(d: u64) -> (r: &'static str)
    requires
        d < 10,
    ensures
        r@ == seq![digit_char(d as nat)],
{
    proof {
        reveal_strlit("0");
        reveal_strlit("1");
        reveal_strlit("2");
        reveal_strlit("3");
        reveal_strlit("4");
        reveal_strlit("5");
        reveal_strlit("6");
        reveal_strlit("7");
        reveal_strlit("8");
        reveal_strlit("9");
    }
    if d == 0 {
        "0"
    } else if d == 1 {
        "1"
    } else if d == 2 {
        "2"
    } else if d == 3 {
        "3"
    } else if d == 4 {
        "4"
    } else if d == 5 {
        "5"
    } else if d == 6 {
        "6"
    } else if d == 7 {
        "7"
    } else if d == 8 {
        "8"
    } else {
        "9"
    }
}

/// `n` in decimal.
pub fn decimal_string(n: u64) -> (r: String)
    ensures
        r@ == decimal(n as nat),
    decreases n,
{
    if n < 10 {
        String::from_str(digit_str(n))
    } else {
        let mut s = decimal_string(n / 10);
        s.append(digit_str(n % 10));
        s
    }
}

/// The name of the file for the trace data of processor `idx`:
/// `{dir}\{time}-{idx}.{suffix}`, where `time` is when the trace started, in
/// seconds since the epoch.
pub fn get_file_name(time: u64, idx: u32, dir: &str, suffix: &str) -> (r: String)
    ensures
        r@ == file_name(time, idx, dir@, suffix@),
{
    proof {
        reveal_strlit("\\");
        reveal_strlit("-");
        reveal_strlit(".");
    }
    let mut s = String::from_str(dir);
    s.append("\\");
    let t = decimal_string(time);
    s.append(t.as_str());
    s.append("-");
    let i = decimal_string(idx as u64);
    s.append(i.as_str());
    s.append(".");
    s.append(suffix);
    s
}

/// What `str::to_uppercase` makes of a string (Unicode upper case).
pub uninterp spec fn uppercase(s: Seq<char>) -> Seq<char>;

/// Whether `char::is_alphabetic` holds of a character (Unicode `Alphabetic`).
pub uninterp spec fn alphabetic(c: char) -> bool;

/// `str::to_uppercase`: the string in Unicode upper case, named `uppercase`.
#[verifier::external_body]
fn to_uppercase(s: &str) -> (r: String)
    ensures
        r@ == uppercase(s@),
{
    s.to_uppercase()
}

/// `char::is_alphabetic`: whether the character is Unicode alphabetic, named `alphabetic`.
#[verifier::external_body]
fn is_alphabetic(c: char) -> (r: bool)
    ensures
        r == alphabetic(c),
{
    c.is_alphabetic()
}

/// Whether the trace data of a processor goes on in a new file: once the file
/// it is written to holds more than `file_size` bytes.
pub fn needs_new_file(written: usize, file_size: usize) -> (r: bool)
    ensures
        r == (written > file_size),
{
    written > file_size
}

/// Bytes in a gigabyte and in a megabyte, as file sizes are given.
pub const GB: usize = 1073741824;
pub const MB: usize = 1048576;

/// `s` ends with `suffix`.
pub open spec fn ends_with(s: Seq<char>, suffix: Seq<char>) -> bool {
    s.len() >= suffix.len() && s.subrange(s.len() - suffix.len(), s.len() as int) == suffix
}

/// The unit that an upper-case size names at its end: "GB" or "MB".
pub open spec fn size_unit(u: Seq<char>) -> Option<nat> {
    if ends_with(u, seq!['G', 'B']) {
        Some(GB as nat)
    } else if ends_with(u, seq!['M', 'B']) {
        Some(MB as nat)
    } else {
        None
    }
}

/// The length of `u` once the alphabetic characters at its end are removed.
pub open spec fn trimmed_len(u: Seq<char>) -> nat
    decreases u.len(),
{
    if u.len() == 0 {
        0
    } else if alphabetic(u.last()) {
        trimmed_len(u.drop_last())
    } else {
        u.len()
    }
}

/// Whether `c` is an ASCII decimal digit.
pub open spec fn is_digit(c: char) -> bool {
    '0' <= c <= '9'
}

/// The value of a string of decimal digits.
pub open spec fn digits_value(d: Seq<char>) -> nat
    decreases d.len(),
{
    if d.len() == 0 {
        0
    } else {
        digits_value(d.drop_last()) * 10 + ((d.last() as u32) - 48) as nat
    }
}

/// The number that `t` spells as `usize::from_str` reads it: an optional `+`,
/// then one or more decimal digits; `None` for anything else.
pub open spec fn unsigned_literal(t: Seq<char>) -> Option<nat> {
    if t.len() > 0 && t[0] == '+' {
        digits_literal(t.drop_first())
    } else {
        digits_literal(t)
    }
}

/// The value of `d` where it is one or more decimal digits.
pub open spec fn digits_literal(d: Seq<char>) -> Option<nat> {
    if d.len() > 0 && forall|i: int| 0 <= i < d.len() ==> #[trigger] is_digit(d[i]) {
        Some(digits_value(d))
    } else {
        None
    }
}

/// The file size that the setting `s` gives: for an upper-case `u` ending in
/// "GB" or "MB", the number before the letters at its end times the unit;
/// `Ok(None)` without a unit; `Err(())` where the number is not a valid
/// `usize` or the size does not fit in one.
pub open spec fn file_size_of(u: Seq<char>) -> Result<Option<nat>, ()> {
    match size_unit(u) {
        None => Ok(None),
        Some(unit) => match unsigned_literal(u.subrange(0, trimmed_len(u) as int)) {
            Some(n) => if n <= usize::MAX && n * unit <= usize::MAX {
                Ok(Some(n * unit))
            } else {
                Err(())
            },
            None => Err(()),
        },
    }
}

/// A size written as a number in decimal followed by "MB" (or "GB") gives
/// that number of megabytes (or gigabytes), or an error where that does not
/// fit in a `usize`; this rests on `char::is_alphabetic` holding of the unit's
/// letters and not of the digits.
pub proof fn lemma_file_size_of_number(n: nat, gigabytes: bool)
    requires
        alphabetic('M'),
        alphabetic('G'),
        alphabetic('B'),
        forall|c: char| '0' <= c <= '9' ==> !#[trigger] alphabetic(c),
    ensures
        ({
            let unit: nat = if gigabytes { GB as nat } else { MB as nat };
            let letter: char = if gigabytes { 'G' } else { 'M' };
            file_size_of(decimal(n) + seq![letter, 'B']) == if n * unit <= usize::MAX {
                Ok::<Option<nat>, ()>(Some(n * unit))
            } else {
                Err::<Option<nat>, ()>(())
            }
        }),
{
    let unit: nat = if gigabytes { GB as nat } else { MB as nat };
    let letter: char = if gigabytes { 'G' } else { 'M' };
    let d = decimal(n);
    let u = d + seq![letter, 'B'];
    lemma_decimal_spells(n);
    lemma_unsigned_literal_of_decimal(n);
    assert(u.subrange(u.len() - 2, u.len() as int) =~= seq![letter, 'B']);
    assert(size_unit(u) == Some(unit));
    assert(u.drop_last() =~= d + seq![letter]);
    assert((d + seq![letter]).drop_last() =~= d);
    assert(!alphabetic(d.last()));
    assert(trimmed_len(d) == d.len());
    assert(trimmed_len(d + seq![letter]) == d.len());
    assert(trimmed_len(u) == d.len());
    assert(u.subrange(0, d.len() as int) =~= d);
    assert(n * unit <= usize::MAX ==> n <= usize::MAX) by (nonlinear_arith)
        requires
            unit >= 1,
    ;
}

proof fn lemma_trimmed_len(u: Seq<char>)
    ensures
        trimmed_len(u) <= u.len(),
        forall|i: int| trimmed_len(u) <= i < u.len() ==> #[trigger] alphabetic(u[i]),
        trimmed_len(u) > 0 ==> !alphabetic(u[trimmed_len(u) - 1]),
    decreases u.len(),
{
    if u.len() > 0 && alphabetic(u.last()) {
        lemma_trimmed_len(u.drop_last());
        assert forall|i: int| trimmed_len(u) <= i < u.len() implies #[trigger] alphabetic(u[i]) by {
            if i < u.len() - 1 {
                assert(u[i] == u.drop_last()[i]);
            }
        }
    }
}

/// The length of `u` once the alphabetic characters at its end are removed.
fn trim_alphabetic_len(u: &str) -> (k: usize)
    ensures
        k == trimmed_len(u@),
        k <= u@.len(),
{
    proof {
        lemma_trimmed_len(u@);
    }
    let mut k: usize = u.unicode_len();
    assert(u@.subrange(0, k as int) =~= u@);
    while k > 0
        invariant
            k <= u@.len(),
            trimmed_len(u@) == trimmed_len(u@.subrange(0, k as int)),
        decreases k,
    {
        let c = u.get_char(k - 1);
        proof {
            assert(u@.subrange(0, k as int).drop_last() =~= u@.subrange(0, k - 1));
        }
        if !is_alphabetic(c) {
            return k;
        }
        k = k - 1;
    }
    k
}

/// The number that the first `k` characters of `u` spell, as `usize::from_str`
/// reads it, or `None` where that fails (no digits, another character, or too large).
fn parse_unsigned(u: &str, k: usize) -> (r: Option<usize>)
    requires
        k <= u@.len(),
    ensures
        match unsigned_literal(u@.subrange(0, k as int)) {
            Some(n) => if n <= usize::MAX {
                r == Some(n as usize)
            } else {
                r is None
            },
            None => r is None,
        },
{
    let ghost t = u@.subrange(0, k as int);
    let mut start: usize = 0;
    if k > 0 && u.get_char(0) == '+' {
        start = 1;
    }
    let ghost d = t.subrange(start as int, k as int);
    assert(d =~= u@.subrange(start as int, k as int));
    proof {
        if start == 1 {
            assert(t.len() > 0 && t[0] == '+');
            assert(d =~= t.drop_first());
        } else {
            assert(!(t.len() > 0 && t[0] == '+'));
            assert(d =~= t);
        }
    }
    if start == k {
        return None;
    }
    assert(unsigned_literal(t) == digits_literal(d));
    let mut value: usize = 0;
    let mut i: usize = start;
    while i < k
        invariant
            start <= i <= k <= u@.len(),
            t == u@.subrange(0, k as int),
            d == t.subrange(start as int, k as int),
            d == u@.subrange(start as int, k as int),
            d.len() > 0,
            unsigned_literal(t) == digits_literal(d),
            forall|j: int| start <= j < i ==> #[trigger] is_digit(u@[j]),
            value == digits_value(u@.subrange(start as int, i as int)),
        decreases k - i,
    {
        let c = u.get_char(i);
        proof {
            assert(u@.subrange(start as int, i + 1).drop_last() =~= u@.subrange(start as int, i as int));
        }
        if !('0' <= c && c <= '9') {
            proof {
                assert(d[i - start] == u@[i as int]);
                assert(!is_digit(d[i - start]));
            }
            return None;
        }
        let dv: usize = (c as u32 - 48) as usize;
        match value.checked_mul(10) {
            Some(v10) => match v10.checked_add(dv) {
                Some(v) => {
                    value = v;
                },
                None => {
                    proof {
                        lemma_digits_value_grows(d, i + 1 - start);
                        assert(d.subrange(0, i + 1 - start) =~= u@.subrange(start as int, i + 1));
                    }
                    return None;
                },
            },
            None => {
                proof {
                    lemma_digits_value_grows(d, i + 1 - start);
                    assert(d.subrange(0, i + 1 - start) =~= u@.subrange(start as int, i + 1));
                }
                return None;
            },
        }
        i = i + 1;
    }
    proof {
        assert(u@.subrange(start as int, k as int) =~= d);
    }
    Some(value)
}

/// A longer prefix of digits never has a smaller value.
proof fn lemma_digits_value_grows(d: Seq<char>, n: int)
    requires
        0 <= n <= d.len(),
    ensures
        (forall|j: int| 0 <= j < d.len() ==> #[trigger] is_digit(d[j])) ==> digits_value(d.subrange(0, n))
            <= digits_value(d),
    decreases d.len() - n,
{
    if n < d.len() {
        lemma_digits_value_grows(d, n + 1);
        assert(d.subrange(0, n + 1).drop_last() =~= d.subrange(0, n));
    } else {
        assert(d.subrange(0, n) =~= d);
    }
}

/// The file size that the setting `setting` gives (such as "1GB" or "512mb"):
/// the setting is taken in upper case; where it ends in "GB" or "MB", the
/// number before the letters at its end, times that unit. `Ok(None)` where it
/// names no unit; `Err(())` where the number is not a valid `usize` or the
/// size does not fit in one.
pub fn parse_file_size(setting: &str) -> (r: Result<Option<usize>, ()>)
    ensures
        match file_size_of(uppercase(setting@)) {
            Ok(None) => r == Ok::<Option<usize>, ()>(None),
            Ok(Some(n)) => r == Ok::<Option<usize>, ()>(Some(n as usize)),
            Err(_) => r is Err,
        },
{
    let u = to_uppercase(setting);
    file_size_from_upper(u.as_str())
}

/// The file size that the upper-case setting `u` gives; see `parse_file_size`.
pub fn file_size_from_upper(u: &str) -> (r: Result<Option<usize>, ()>)
    ensures
        match file_size_of(u@) {
            Ok(None) => r == Ok::<Option<usize>, ()>(None),
            Ok(Some(n)) => r == Ok::<Option<usize>, ()>(Some(n as usize)),
            Err(_) => r is Err,
        },
{
    let len: usize = u.unicode_len();
    let unit: usize = if len >= 2 && u.get_char(len - 2) == 'G' && u.get_char(len - 1) == 'B' {
        proof {
            assert(u@.subrange(len - 2, len as int) =~= seq!['G', 'B']);
        }
        GB
    } else if len >= 2 && u.get_char(len - 2) == 'M' && u.get_char(len - 1) == 'B' {
        proof {
            assert(u@.subrange(len - 2, len as int) =~= seq!['M', 'B']);
            assert(!ends_with(u@, seq!['G', 'B']));
        }
        MB
    } else {
        proof {
            if ends_with(u@, seq!['G', 'B']) {
                assert(u@.subrange(len - 2, len as int)[0] == 'G');
            }
            if ends_with(u@, seq!['M', 'B']) {
                assert(u@.subrange(len - 2, len as int)[0] == 'M');
            }
        }
        return Ok(None);
    };
    let k: usize = trim_alphabetic_len(u);
    match parse_unsigned(u, k) {
        Some(n) => match n.checked_mul(unit) {
            Some(size) => Ok(Some(size)),
            None => Err(()),
        },
        None => Err(()),
    }
}

/// The id of the first process in `procs` (pairs of id and name) whose name is
/// `name` when both are taken in upper case.
pub fn find_process_id(procs: &Vec<(usize, String)>, name: &str) -> (r: Option<usize>)
    ensures
        match r {
            Some(pid) => exists|i: int| 0 <= i < procs@.len() && procs@[i].0 == pid && uppercase(
                procs@[i].1@,
            ) == uppercase(name@) && forall|j: int| 0 <= j < i ==> uppercase(#[trigger] procs@[j].1@)
                != uppercase(name@),
            None => forall|j: int| 0 <= j < procs@.len() ==> uppercase(#[trigger] procs@[j].1@)
                != uppercase(name@),
        },
{
    let target = to_uppercase(name);
    let mut i: usize = 0;
    while i < procs.len()
        invariant
            i <= procs@.len(),
            target@ == uppercase(name@),
            forall|j: int| 0 <= j < i ==> uppercase(#[trigger] procs@[j].1@) != uppercase(name@),
        decreases procs@.len() - i,
    {
        let cur = to_uppercase(procs[i].1.as_str());
        if cur == target {
            return Some(procs[i].0);
        }
        i = i + 1;
    }
    None
}

} // verus!
