//! The JSON form of a task, written and read by the library itself so that
//! both directions carry exact contracts: the canonical form of
//! `{ id, name }` is `{"id":<digits>,"name":"<escaped name>"}`, with `"` and
//! `\` in the name escaped by a backslash and every other character kept as
//! it is, and the parser accepts exactly that canonical form.

use vstd::prelude::*;

use crate::model::{Task, TaskView};
use crate::repository::opt_view;

verus! {

/// Whether `c` is a decimal digit.
pub open spec fn is_digit(c: char) -> bool {
    48 <= c as u32 <= 57
}

/// The numeric value of a decimal digit.
pub open spec fn digit_val(c: char) -> nat {
    (c as u32 - 48) as nat
}

/// The decimal digit with value `d`, for `d < 10`.
pub open spec fn digit_char(d: nat) -> char {
    if d == 0 {
        '0'
    } else if d == 1 {
        '1'
    } else if d == 2 {
        '2'
    } else if d == 3 {
        '3'
    } else if d == 4 {
        '4'
    } else if d == 5 {
        '5'
    } else if d == 6 {
        '6'
    } else if d == 7 {
        '7'
    } else if d == 8 {
        '8'
    } else {
        '9'
    }
}

/// The decimal digits of `n`, most significant first, with no leading zero
/// except for `n == 0` itself.
pub open spec fn spec_digits(n: nat) -> Seq<char>
    decreases n,
{
    if n < 10 {
        seq![digit_char(n)]
    } else {
        spec_digits(n / 10).push(digit_char(n % 10))
    }
}

/// The number a sequence of decimal digits denotes.
pub open spec fn seq_digit_val(ds: Seq<char>) -> nat
    decreases ds.len(),
{
    if ds.len() == 0 {
        0
    } else {
        seq_digit_val(ds.drop_last()) * 10 + digit_val(ds.last())
    }
}

/// The first position at or after `i` that does not carry a decimal digit.
pub open spec fn digit_run_end(s: Seq<char>, i: int) -> int
    decreases s.len() - i,
{
    if i < 0 || i >= s.len() {
        i
    } else if is_digit(s[i]) {
        digit_run_end(s, i + 1)
    } else {
        i
    }
}

/// Reading a canonically written `u32` at position `i`: a nonempty digit run
/// with no leading zero, denoting a number that fits. Yields the number and
/// the position after the run.
pub open spec fn spec_parse_u32(s: Seq<char>, i: int) -> Option<(u32, int)> {
    let j = digit_run_end(s, i);
    if j == i {
        None
    } else if s[i] == '0' && j > i + 1 {
        None
    } else if seq_digit_val(s.subrange(i, j)) > u32::MAX {
        None
    } else {
        Some((seq_digit_val(s.subrange(i, j)) as u32, j))
    }
}

/// The written form of one name character: `"` and `\` get a backslash in
/// front, every other character stands for itself.
pub open spec fn esc_char(c: char) -> Seq<char> {
    if c == '"' || c == '\\' {
        seq!['\\', c]
    } else {
        seq![c]
    }
}

/// The written form of a whole name.
pub open spec fn spec_escape(s: Seq<char>) -> Seq<char>
    decreases s.len(),
{
    if s.len() == 0 {
        Seq::empty()
    } else {
        esc_char(s[0]) + spec_escape(s.drop_first())
    }
}

/// Reading an escaped string from position `i` up to and including its
/// closing quote. Yields the name and the position after the quote.
pub open spec fn spec_parse_str(s: Seq<char>, i: int) -> Option<(Seq<char>, int)>
    decreases s.len() - i,
{
    if i < 0 || i >= s.len() {
        None
    } else if s[i] == '"' {
        Some((Seq::empty(), i + 1))
    } else if s[i] == '\\' {
        if i + 1 < s.len() && (s[i + 1] == '"' || s[i + 1] == '\\') {
            match spec_parse_str(s, i + 2) {
                Some(p) => Some((seq![s[i + 1]] + p.0, p.1)),
                None => None,
            }
        } else {
            None
        }
    } else {
        match spec_parse_str(s, i + 1) {
            Some(p) => Some((seq![s[i]] + p.0, p.1)),
            None => None,
        }
    }
}

/// The opening of the canonical form, up to the id's digits.
pub open spec fn json_head() -> Seq<char> {
    seq!['{', '"', 'i', 'd', '"', ':']
}

/// Between the id's digits and the name's characters.
pub open spec fn json_mid() -> Seq<char> {
    seq![',', '"', 'n', 'a', 'm', 'e', '"', ':', '"']
}

/// After the name's characters.
pub open spec fn json_tail() -> Seq<char> {
    seq!['"', '}']
}

/// The canonical JSON form of a task.
pub open spec fn spec_task_json(t: TaskView) -> Seq<char> {
    json_head() + spec_digits(t.id as nat) + json_mid() + spec_escape(t.name) + json_tail()
}

/// The task whose canonical JSON form `s` is, if it is one.
pub open spec fn spec_task_from_json(s: Seq<char>) -> Option<TaskView> {
    if s.len() < 6 || s.subrange(0, 6) != json_head() {
        None
    } else {
        match spec_parse_u32(s, 6) {
            None => None,
            Some(p) => {
                let j = p.1;
                if j + 9 > s.len() || s.subrange(j, j + 9) != json_mid() {
                    None
                } else {
                    match spec_parse_str(s, j + 9) {
                        None => None,
                        Some(q) => {
                            let k = q.1;
                            if k == s.len() - 1 && s[k] == '}' {
                                Some(TaskView { id: p.0, name: q.0 })
                            } else {
                                None
                            }
                        },
                    }
                }
            },
        }
    }
}

/// Relies on `str::chars`: the iterator yields exactly the string's
/// characters, in order, which is what the string's value is.
#[verifier::external_body]
fn chars_of(s: &str) -> (r: Vec<char>)
    ensures
        r@ == s@,
{
    s.chars().collect()
}

/// Relies on `String`'s `FromIterator` over characters: the collected string
/// holds exactly the characters handed to it, in order.
#[verifier::external_body]
fn string_of(chars: &Vec<char>) -> (r: String)
    ensures
        r@ == chars@,
{
    chars.iter().collect()
}

/// Whether `c` is a decimal digit.
fn is_digit_exec(c: char) -> (r: bool)
    ensures
        r == is_digit(c),
{
    let u = c as u32;
    48 <= u && u <= 57
}

/// The decimal digit with value `d`.
fn digit_char_exec(d: u32) -> (c: char)
    requires
        d < 10,
    ensures
        c == digit_char(d as nat),
{
    match d {
        0 => '0',
        1 => '1',
        2 => '2',
        3 => '3',
        4 => '4',
        5 => '5',
        6 => '6',
        7 => '7',
        8 => '8',
        _ => '9',
    }
}

/// Appends the decimal digits of `n` to `out`.
fn push_digits(n: u32, out: &mut Vec<char>)
    ensures
        final(out)@ == old(out)@ + spec_digits(n as nat),
    decreases n,
{
    if n < 10 {
        out.push(digit_char_exec(n));
        proof {
            assert(out@ =~= old(out)@ + spec_digits(n as nat));
        }
    } else {
        push_digits(n / 10, out);
        out.push(digit_char_exec(n % 10));
        proof {
            assert(out@ =~= old(out)@ + spec_digits(n as nat));
        }
    }
}

/// Escaping distributes over appending one character at the end.
proof fn lemma_escape_push(s: Seq<char>, c: char)
    ensures
        spec_escape(s.push(c)) == spec_escape(s) + esc_char(c),
    decreases s.len(),
{
    if s.len() == 0 {
        let p = s.push(c);
        assert(p.drop_first() =~= Seq::<char>::empty());
        assert(p[0] == c);
        assert(spec_escape(Seq::<char>::empty()) == Seq::<char>::empty());
        assert(spec_escape(p) == esc_char(c) + Seq::<char>::empty());
        assert(esc_char(c) + Seq::<char>::empty() =~= Seq::<char>::empty() + esc_char(c));
    } else {
        assert(s.push(c).drop_first() =~= s.drop_first().push(c));
        lemma_escape_push(s.drop_first(), c);
        assert(spec_escape(s.push(c)) == esc_char(s[0]) + (spec_escape(s.drop_first()) + esc_char(
            c,
        )));
        assert(esc_char(s[0]) + (spec_escape(s.drop_first()) + esc_char(c)) =~= (esc_char(s[0])
            + spec_escape(s.drop_first())) + esc_char(c));
    }
}

/// Whether `pat` stands letter for letter at position `i` of `s`.
fn seq_eq_at(s: &Vec<char>, i: usize, pat: &Vec<char>) -> (r: bool)
    requires
        i + pat@.len() <= s@.len(),
    ensures
        r == (s@.subrange(i as int, i as int + pat@.len() as int) == pat@),
{
    let n = pat.len();
    let sn = s.len();
    let mut k: usize = 0;
    while k < n
        invariant
            k <= n,
            n == pat@.len(),
            sn == s@.len(),
            i + n <= sn,
            forall|t: int| 0 <= t < k ==> s@[i + t] == pat@[t],
        decreases n - k,
    {
        if s[i + k] != pat[k] {
            proof {
                assert(s@.subrange(i as int, i as int + n as int)[k as int] == s@[i + k]);
            }
            return false;
        }
        k += 1;
    }
    proof {
        assert(s@.subrange(i as int, i as int + n as int) =~= pat@);
    }
    true
}

/// Digit runs only grow while digits keep coming.
proof fn lemma_run_end_props(s: Seq<char>, i: int)
    requires
        0 <= i <= s.len(),
    ensures
        i <= digit_run_end(s, i) <= s.len(),
        forall|k: int| i <= k < digit_run_end(s, i) ==> is_digit(#[trigger] s[k]),
        digit_run_end(s, i) == s.len() || !is_digit(s[digit_run_end(s, i)]),
    decreases s.len() - i,
{
    if i < s.len() && is_digit(s[i]) {
        lemma_run_end_props(s, i + 1);
    }
}

/// A run of digits followed by a non-digit ends exactly at the non-digit.
proof fn lemma_run_end_of_digits(s: Seq<char>, i: int, m: int)
    requires
        0 <= i <= m <= s.len(),
        forall|k: int| i <= k < m ==> is_digit(#[trigger] s[k]),
        m == s.len() || !is_digit(s[m]),
    ensures
        digit_run_end(s, i) == m,
    decreases m - i,
{
    if i < m {
        lemma_run_end_of_digits(s, i + 1, m);
    }
}

/// A digit prefix never denotes more than the whole run.
proof fn lemma_digit_val_prefix_le(s: Seq<char>, i: int, a: int, b: int)
    requires
        0 <= i <= a <= b <= s.len(),
    ensures
        seq_digit_val(s.subrange(i, a)) <= seq_digit_val(s.subrange(i, b)),
    decreases b - a,
{
    if a < b {
        lemma_digit_val_prefix_le(s, i, a, b - 1);
        assert(s.subrange(i, b).drop_last() =~= s.subrange(i, b - 1));
    }
}

/// Reads a canonically written `u32` at position `i`, as
/// [`spec_parse_u32`] describes.
fn parse_u32_at(s: &Vec<char>, i: usize) -> (r: Option<(u32, usize)>)
    requires
        i <= s@.len(),
    ensures
        match r {
            Some(p) => {
                &&& spec_parse_u32(s@, i as int) == Some((p.0, p.1 as int))
                &&& i < p.1 <= s@.len()
            },
            None => spec_parse_u32(s@, i as int) is None,
        },
{
    let n = s.len();
    let mut j: usize = i;
    let mut acc: u64 = 0;
    proof {
        assert(s@.subrange(i as int, i as int) =~= Seq::<char>::empty());
        assert(seq_digit_val(Seq::<char>::empty()) == 0);
    }
    while j < n && is_digit_exec(s[j])
        invariant
            i <= j <= n,
            n == s@.len(),
            digit_run_end(s@, i as int) == digit_run_end(s@, j as int),
            acc == seq_digit_val(s@.subrange(i as int, j as int)),
            acc <= u32::MAX,
        decreases n - j,
    {
        let ghost prefix = s@.subrange(i as int, j as int);
        let d = s[j] as u32 - 48;
        acc = acc * 10 + d as u64;
        proof {
            let ext = s@.subrange(i as int, j + 1 as int);
            assert(ext =~= prefix.push(s@[j as int]));
            assert(ext.drop_last() =~= prefix);
            assert(ext.last() == s@[j as int]);
            assert(seq_digit_val(ext) == seq_digit_val(prefix) * 10 + digit_val(s@[j as int]));
            assert(digit_run_end(s@, j as int) == digit_run_end(s@, j + 1 as int));
        }
        if acc > u32::MAX as u64 {
            proof {
                lemma_run_end_props(s@, j + 1 as int);
                assert(digit_run_end(s@, i as int) >= j + 1);
                lemma_digit_val_prefix_le(
                    s@,
                    i as int,
                    j + 1 as int,
                    digit_run_end(s@, i as int),
                );
            }
            return None;
        }
        j += 1;
    }
    proof {
        assert(digit_run_end(s@, j as int) == j as int);
    }
    if j == i {
        return None;
    }
    if s[i] == '0' && j > i + 1 {
        return None;
    }
    Some((acc as u32, j))
}

/// Reads an escaped string at position `i`, as [`spec_parse_str`] describes.
fn parse_str_at(s: &Vec<char>, i: usize) -> (r: Option<(Vec<char>, usize)>)
    requires
        i <= s@.len(),
    ensures
        match r {
            Some(p) => {
                &&& spec_parse_str(s@, i as int) == Some((p.0@, p.1 as int))
                &&& i < p.1 <= s@.len()
            },
            None => spec_parse_str(s@, i as int) is None,
        },
    decreases s@.len() - i,
{
    if i >= s.len() {
        return None;
    }
    let c = s[i];
    if c == '"' {
        let v: Vec<char> = Vec::new();
        proof {
            assert(v@ =~= Seq::<char>::empty());
        }
        return Some((v, i + 1));
    }
    if c == '\\' {
        if i + 1 < s.len() {
            let e = s[i + 1];
            if e == '"' || e == '\\' {
                return match parse_str_at(s, i + 2) {
                    Some(p) => {
                        let (mut v, after) = p;
                        let ghost rest = v@;
                        v.insert(0, e);
                        proof {
                            assert(v@ =~= seq![s@[i + 1 as int]] + rest);
                        }
                        Some((v, after))
                    },
                    None => None,
                };
            }
        }
        return None;
    }
    match parse_str_at(s, i + 1) {
        Some(p) => {
            let (mut v, after) = p;
            let ghost rest = v@;
            v.insert(0, c);
            proof {
                assert(v@ =~= seq![s@[i as int]] + rest);
            }
            Some((v, after))
        },
        None => None,
    }
}

impl Task {
    /// The canonical JSON form of the task.
    pub fn to_json(&self) -> (r: String)
        ensures
            r@ == spec_task_json(self@),
    {
        let mut out: Vec<char> = Vec::new();
        out.push('{');
        out.push('"');
        out.push('i');
        out.push('d');
        out.push('"');
        out.push(':');
        proof {
            assert(out@ =~= json_head());
        }
        push_digits(self.id, &mut out);
        let ghost with_digits = json_head() + spec_digits(self.id as nat);
        out.push(',');
        out.push('"');
        out.push('n');
        out.push('a');
        out.push('m');
        out.push('e');
        out.push('"');
        out.push(':');
        out.push('"');
        proof {
            assert(out@ =~= with_digits + json_mid());
        }
        let ghost with_mid = with_digits + json_mid();
        let cs = chars_of(self.name.as_str());
        let n = cs.len();
        let mut k: usize = 0;
        proof {
            assert(cs@.take(0) =~= Seq::<char>::empty());
            assert(out@ =~= with_mid + spec_escape(cs@.take(0)));
        }
        while k < n
            invariant
                k <= n,
                n == cs@.len(),
                out@ == with_mid + spec_escape(cs@.take(k as int)),
            decreases n - k,
        {
            let c = cs[k];
            if c == '"' || c == '\\' {
                out.push('\\');
                out.push(c);
            } else {
                out.push(c);
            }
            proof {
                lemma_escape_push(cs@.take(k as int), c);
                assert(cs@.take(k + 1 as int) =~= cs@.take(k as int).push(cs@[k as int]));
                assert(out@ =~= with_mid + spec_escape(cs@.take(k + 1 as int)));
            }
            k += 1;
        }
        out.push('"');
        out.push('}');
        proof {
            assert(cs@.take(n as int) =~= cs@);
            assert(out@ =~= spec_task_json(self@));
        }
        string_of(&out)
    }

    /// The task whose canonical JSON form `s` is; nothing when `s` is not
    /// the canonical form of any task.
    pub fn from_json(s: &str) -> (r: Option<Task>)
        ensures
            opt_view(r) == spec_task_from_json(s@),
    {
        let cs = chars_of(s);
        let mut head: Vec<char> = Vec::new();
        head.push('{');
        head.push('"');
        head.push('i');
        head.push('d');
        head.push('"');
        head.push(':');
        proof {
            assert(head@ =~= json_head());
        }
        if cs.len() < 6 {
            return None;
        }
        if !seq_eq_at(&cs, 0, &head) {
            return None;
        }
        let parsed_id = parse_u32_at(&cs, 6);
        let (id, j) = match parsed_id {
            Some(p) => p,
            None => {
                return None;
            },
        };
        if cs.len() - j < 9 {
            return None;
        }
        let mut mid: Vec<char> = Vec::new();
        mid.push(',');
        mid.push('"');
        mid.push('n');
        mid.push('a');
        mid.push('m');
        mid.push('e');
        mid.push('"');
        mid.push(':');
        mid.push('"');
        proof {
            assert(mid@ =~= json_mid());
        }
        if !seq_eq_at(&cs, j, &mid) {
            return None;
        }
        let parsed_name = parse_str_at(&cs, j + 9);
        let (name_chars, k) = match parsed_name {
            Some(q) => q,
            None => {
                return None;
            },
        };
        if k == cs.len() - 1 && cs[k] == '}' {
            let name = string_of(&name_chars);
            Some(Task { id, name })
        } else {
            None
        }
    }
}

/// The digits of a number are digits, there is at least one, they denote the
/// number itself, and only zero is written with a leading zero.
proof fn lemma_digits_props(n: nat)
    ensures
        spec_digits(n).len() >= 1,
        forall|k: int| 0 <= k < spec_digits(n).len() ==> is_digit(#[trigger] spec_digits(n)[k]),
        seq_digit_val(spec_digits(n)) == n,
        n > 0 ==> spec_digits(n)[0] != '0',
    decreases n,
{
    if n < 10 {
        let ds = spec_digits(n);
        assert(ds.drop_last() =~= Seq::<char>::empty());
        assert(ds.last() == digit_char(n));
        assert(seq_digit_val(Seq::<char>::empty()) == 0);
        assert(seq_digit_val(ds) == 0 * 10 + digit_val(digit_char(n)));
    } else {
        lemma_digits_props(n / 10);
        let ds = spec_digits(n);
        let prev = spec_digits(n / 10);
        assert(ds.drop_last() =~= prev);
        assert(seq_digit_val(ds) == seq_digit_val(prev) * 10 + digit_val(digit_char(n % 10)));
        assert(seq_digit_val(ds) == (n / 10) * 10 + n % 10);
        assert(ds[0] == prev[0]);
    }
}

/// Parsing an escaped name written into a larger text, with a quote right
/// after it, yields the name and stops after the quote.
proof fn lemma_parse_escaped(s: Seq<char>, i: int, name: Seq<char>)
    requires
        0 <= i,
        i + spec_escape(name).len() < s.len(),
        s.subrange(i, i + spec_escape(name).len()) == spec_escape(name),
        s[i + spec_escape(name).len()] == '"',
    ensures
        spec_parse_str(s, i) == Some((name, i + spec_escape(name).len() + 1)),
    decreases name.len(),
{
    let el = spec_escape(name).len() as int;
    if name.len() == 0 {
        assert(el == 0);
    } else {
        let c = name[0];
        let rest = name.drop_first();
        let erest = spec_escape(rest);
        assert(spec_escape(name) == esc_char(c) + erest);
        if c == '"' || c == '\\' {
            assert(el == 2 + erest.len());
            assert(s[i] == spec_escape(name)[0]) by {
                assert(s.subrange(i, i + el)[0] == s[i]);
            }
            assert(s[i + 1] == spec_escape(name)[1]) by {
                assert(s.subrange(i, i + el)[1] == s[i + 1]);
            }
            assert(s[i] == '\\');
            assert(s[i + 1] == c);
            assert(s.subrange(i + 2, i + 2 + erest.len()) =~= erest) by {
                assert forall|t: int| 0 <= t < erest.len() implies s.subrange(
                    i + 2,
                    i + 2 + erest.len(),
                )[t] == erest[t] by {
                    assert(s.subrange(i + 2, i + 2 + erest.len())[t] == s[i + 2 + t]);
                    assert(s.subrange(i, i + el)[2 + t] == s[i + 2 + t]);
                    assert(spec_escape(name)[2 + t] == erest[t]);
                }
            }
            lemma_parse_escaped(s, i + 2, rest);
            assert(seq![s[i + 1]] + rest =~= name);
        } else {
            assert(el == 1 + erest.len());
            assert(s[i] == spec_escape(name)[0]) by {
                assert(s.subrange(i, i + el)[0] == s[i]);
            }
            assert(s[i] == c);
            assert(s.subrange(i + 1, i + 1 + erest.len()) =~= erest) by {
                assert forall|t: int| 0 <= t < erest.len() implies s.subrange(
                    i + 1,
                    i + 1 + erest.len(),
                )[t] == erest[t] by {
                    assert(s.subrange(i + 1, i + 1 + erest.len())[t] == s[i + 1 + t]);
                    assert(s.subrange(i, i + el)[1 + t] == s[i + 1 + t]);
                    assert(spec_escape(name)[1 + t] == erest[t]);
                }
            }
            lemma_parse_escaped(s, i + 1, rest);
            assert(seq![s[i]] + rest =~= name);
        }
    }
}

/// Writing a task and reading the result back yields the task unchanged:
/// the canonical form loses nothing.
pub proof fn lemma_json_round_trip(t: TaskView)
    ensures
        spec_task_from_json(spec_task_json(t)) == Some(t),
{
    let s = spec_task_json(t);
    let d = spec_digits(t.id as nat);
    let e = spec_escape(t.name);
    let dl = d.len() as int;
    let el = e.len() as int;
    lemma_digits_props(t.id as nat);
    assert(s.len() == 6 + dl + 9 + el + 2);
    assert forall|k: int| 0 <= k < s.len() implies s[k] == (if k < 6 {
        json_head()[k]
    } else if k < 6 + dl {
        d[k - 6]
    } else if k < 6 + dl + 9 {
        json_mid()[k - 6 - dl]
    } else if k < 6 + dl + 9 + el {
        e[k - 6 - dl - 9]
    } else {
        json_tail()[k - 6 - dl - 9 - el]
    }) by {
        assert(s == ((json_head() + d) + json_mid() + e) + json_tail());
    }
    assert(s.subrange(0, 6) =~= json_head());
    let j = 6 + dl;
    assert(s.subrange(6, j) =~= d);
    assert(s[j] == ',');
    assert(!is_digit(','));
    assert forall|k: int| 6 <= k < j implies is_digit(#[trigger] s[k]) by {
        assert(s[k] == d[k - 6]);
    }
    lemma_run_end_of_digits(s, 6, j);
    assert(seq_digit_val(s.subrange(6, j)) == t.id as nat);
    assert(t.id > 0 ==> s[6] != '0');
    assert(t.id == 0 ==> dl == 1);
    assert(spec_parse_u32(s, 6) == Some((t.id, j)));
    assert(s.subrange(j, j + 9) =~= json_mid());
    assert(s.subrange(j + 9, j + 9 + el) =~= e);
    assert(s[j + 9 + el] == '"');
    lemma_parse_escaped(s, j + 9, t.name);
    assert(spec_parse_str(s, j + 9) == Some((t.name, j + 9 + el + 1)));
    assert(s[j + 9 + el + 1] == '}');
}

} // verus!
