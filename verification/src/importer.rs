//! Rules for importing a school from the database export: reading a semester and
//! group code, recognising optative classes, preparing the SQL dump, and building the
//! schedule from the professor and class rows.
use vstd::prelude::*;
use vstd::std_specs::iter::IteratorSpec;
use vstd::string::*;

use crate::constraints::{
    digit_char, group_number, group_of_number, semester_number, semester_of_number, AllowedClassroomTypes, Class, Group, ProfessorKey,
    Semester,
};
use crate::school_schedule::{ClassMetadata, SchoolSchedule};
use crate::week_calendar::{cell_index, DATA_LEN};

verus! {

/// The characters of `s`, in order.
pub fn chars_of(s: &str) -> (r: Vec<char>)
    ensures
        r@ == s@,
{
    broadcast use vstd::string::axiom_spec_iter, vstd::string::next_postcondition;

    let mut it = s.chars();
    let mut r: Vec<char> = Vec::new();
    loop
        invariant
            r@ + it.remaining() == s@,
            it.obeys_prophetic_iter_laws(),
            it.decrease() is Some,
        ensures
            r@ == s@,
        decreases it.decrease()->0,
    {
        match it.next() {
            Some(c) => {
                r.push(c);
            },
            None => {
                assert(r@ =~= s@);
                break;
            },
        }
    }
    r
}

/// The value of an ASCII decimal digit.
pub open spec fn digit_of(c: char) -> Option<int> {
    if '0' <= c && c <= '9' {
        Some(c as int - '0' as int)
    } else {
        None
    }
}

/// The semester and group a code such as "0203" stands for: its first four characters
/// are '0', the semester's digit (1 to 8), '0' and the group's digit (1 to 4).
pub open spec fn semester_group_of(s: Seq<char>) -> Option<(Semester, Group)> {
    if s.len() >= 4 && s[0] == '0' && s[2] == '0' && digit_of(s[1]) is Some && digit_of(s[3]) is Some {
        match (semester_of_number(digit_of(s[1])->0), group_of_number(digit_of(s[3])->0)) {
            (Some(semester), Some(group)) => Some((semester, group)),
            _ => None,
        }
    } else {
        None
    }
}

/// Reading a semester and group code gives back the semester and group whose codes
/// it is made of: the code of the semester followed by that of the group.
pub proof fn lemma_semester_group_round_trip(semester: Semester, group: Group)
    ensures
        semester_group_of(
            seq!['0', digit_char(semester_number(semester)), '0', digit_char(group_number(group))],
        ) == Some((semester, group)),
{
    let s = seq!['0', digit_char(semester_number(semester)), '0', digit_char(group_number(group))];
    assert(s[1] == digit_char(semester_number(semester)));
    assert(s[3] == digit_char(group_number(group)));
    assert(digit_of(s[1]) == Some(semester_number(semester)));
    assert(digit_of(s[3]) == Some(group_number(group)));
}

/// The value of `c` when it is an ASCII decimal digit.
fn parse_digit(c: char) -> (r: Option<u32>)
    ensures
        r is Some <==> digit_of(c) is Some,
        r matches Some(d) ==> d == digit_of(c)->0,
{
    if c >= '0' && c <= '9' {
        Some((c as u32) - ('0' as u32))
    } else {
        None
    }
}

/// Reads the semester and group of a group code such as "0203" (semester 2, group 3).
pub fn parse_semester_group(s: &str) -> (r: Option<(Semester, Group)>)
    ensures
        r == semester_group_of(s@),
{
    let chars = chars_of(s);
    if chars.len() < 4 || chars[0] != '0' || chars[2] != '0' {
        return None;
    }
    let d1 = parse_digit(chars[1]);
    let d2 = parse_digit(chars[3]);
    match (d1, d2) {
        (Some(d1), Some(d2)) => {
            match (Semester::try_from_u32(d1), Group::try_from_u32(d2)) {
                (Ok(semester), Ok(group)) => Some((semester, group)),
                _ => None,
            }
        },
        _ => None,
    }
}

/// A class is optative when its code starts with "00".
pub fn is_optative(class_code: &str) -> (r: bool)
    ensures
        r == (class_code@.len() >= 2 && class_code@[0] == '0' && class_code@[1] == '0'),
{
    let chars = chars_of(class_code);
    chars.len() >= 2 && chars[0] == '0' && chars[1] == '0'
}

/// The decimal writing of `n`, without leading zeros.
pub open spec fn decimal(n: nat) -> Seq<char>
    decreases n,
{
    if n < 10 {
        seq![digit_char(n as int)]
    } else {
        decimal(n / 10).push(digit_char((n % 10) as int))
    }
}

/// The one-character string of decimal digit `d`.
fn digit_str(d: u8) -> (r: &'static str)
    requires
        d < 10,
    ensures
        r@ == seq![digit_char(d as int)],
{
    match d {
        0 => {
            proof {
                reveal_strlit("0");
            }
            "0"
        },
        1 => {
            proof {
                reveal_strlit("1");
            }
            "1"
        },
        2 => {
            proof {
                reveal_strlit("2");
            }
            "2"
        },
        3 => {
            proof {
                reveal_strlit("3");
            }
            "3"
        },
        4 => {
            proof {
                reveal_strlit("4");
            }
            "4"
        },
        5 => {
            proof {
                reveal_strlit("5");
            }
            "5"
        },
        6 => {
            proof {
                reveal_strlit("6");
            }
            "6"
        },
        7 => {
            proof {
                reveal_strlit("7");
            }
            "7"
        },
        8 => {
            proof {
                reveal_strlit("8");
            }
            "8"
        },
        _ => {
            proof {
                reveal_strlit("9");
            }
            "9"
        },
    }
}

/// The decimal writing of `n`.
fn decimal_string(n: u8) -> (r: String)
    ensures
        r@ == decimal(n as nat),
{
    proof {
        reveal_with_fuel(decimal, 3);
    }
    if n < 10 {
        String::from_str(digit_str(n))
    } else if n < 100 {
        let mut s = String::from_str(digit_str(n / 10));
        s.append(digit_str(n % 10));
        s
    } else {
        let mut s = String::from_str(digit_str(n / 100));
        s.append(digit_str((n / 10) % 10));
        s.append(digit_str(n % 10));
        assert(decimal((n / 10) as nat) == seq![digit_char((n / 100) as int), digit_char(((n / 10) % 10) as int)]);
        s
    }
}

/// How a number of weekly hours is shown: "1 hr." for one hour, "N hrs." otherwise.
pub fn to_human_time(class_hours: u8) -> (r: String)
    ensures
        r@ == if class_hours == 1 {
            "1 hr."@
        } else {
            decimal(class_hours as nat) + " hrs."@
        },
{
    if class_hours == 1 {
        String::from_str("1 hr.")
    } else {
        let mut s = decimal_string(class_hours);
        s.append(" hrs.");
        s
    }
}


/// A character of Unicode's White_Space property, which `str::trim` removes.
pub open spec fn is_white_space(c: char) -> bool {
    ||| '\t' <= c && c <= '\r'
    ||| c == ' '
    ||| c == '\u{85}'
    ||| c == '\u{A0}'
    ||| c == '\u{1680}'
    ||| '\u{2000}' <= c && c <= '\u{200A}'
    ||| c == '\u{2028}'
    ||| c == '\u{2029}'
    ||| c == '\u{202F}'
    ||| c == '\u{205F}'
    ||| c == '\u{3000}'
}

/// `true` when `c` has Unicode's White_Space property.
fn white_space(c: char) -> (r: bool)
    ensures
        r == is_white_space(c),
{
    ('\t' <= c && c <= '\r') || c == ' ' || c == '\u{85}' || c == '\u{A0}' || c == '\u{1680}' || (
    '\u{2000}' <= c && c <= '\u{200A}') || c == '\u{2028}' || c == '\u{2029}' || c == '\u{202F}'
        || c == '\u{205F}' || c == '\u{3000}'
}

/// `s` without its leading white space.
pub open spec fn trim_start(s: Seq<char>) -> Seq<char>
    decreases s.len(),
{
    if s.len() > 0 && is_white_space(s[0]) {
        trim_start(s.drop_first())
    } else {
        s
    }
}

/// `s` without its trailing white space.
pub open spec fn trim_end(s: Seq<char>) -> Seq<char>
    decreases s.len(),
{
    if s.len() > 0 && is_white_space(s.last()) {
        trim_end(s.drop_last())
    } else {
        s
    }
}

/// `s` without its leading and trailing white space.
pub open spec fn trimmed(s: Seq<char>) -> Seq<char> {
    trim_end(trim_start(s))
}

/// Dropping the white space before position `a` of `s`, where `s[a]` is not white
/// space (or `a` is the end), leaves `s` from `a` on.
proof fn lemma_trim_start(s: Seq<char>, a: int)
    requires
        0 <= a <= s.len(),
        forall|i: int| 0 <= i < a ==> is_white_space(#[trigger] s[i]),
        a == s.len() || !is_white_space(s[a]),
    ensures
        trim_start(s) == s.subrange(a, s.len() as int),
    decreases a,
{
    if a > 0 {
        assert forall|i: int| 0 <= i < a - 1 implies is_white_space(#[trigger] s.drop_first()[i]) by {
            assert(s.drop_first()[i] == s[i + 1]);
        }
        lemma_trim_start(s.drop_first(), a - 1);
        assert(s.drop_first().subrange(a - 1, s.len() - 1) =~= s.subrange(a, s.len() as int));
    } else {
        assert(s.subrange(0, s.len() as int) =~= s);
    }
}

/// Dropping the white space from position `b` of `s` on, where `s[b - 1]` is not white
/// space (or `b` is 0), leaves `s` up to `b`.
proof fn lemma_trim_end(s: Seq<char>, b: int)
    requires
        0 <= b <= s.len(),
        forall|i: int| b <= i < s.len() ==> is_white_space(#[trigger] s[i]),
        b == 0 || !is_white_space(s[b - 1]),
    ensures
        trim_end(s) == s.subrange(0, b),
    decreases s.len() - b,
{
    if b < s.len() {
        assert forall|i: int| b <= i < s.len() - 1 implies is_white_space(#[trigger] s.drop_last()[i]) by {
            assert(s.drop_last()[i] == s[i]);
        }
        lemma_trim_end(s.drop_last(), b);
        assert(s.drop_last().subrange(0, b) =~= s.subrange(0, b));
    } else {
        assert(s.subrange(0, b) =~= s);
    }
}

/// The characters of `line` without leading and trailing white space.
pub(crate) fn trim_chars(line: &Vec<char>) -> (r: Vec<char>)
    ensures
        r@ == trimmed(line@),
{
    let n = line.len();
    let mut a: usize = 0;
    while a < n && white_space(line[a])
        invariant
            n == line@.len(),
            a <= n,
            forall|i: int| 0 <= i < a ==> is_white_space(#[trigger] line@[i]),
        decreases n - a,
    {
        a = a + 1;
    }
    proof {
        lemma_trim_start(line@, a as int);
    }
    let mut b: usize = n;
    while b > a && white_space(line[b - 1])
        invariant
            n == line@.len(),
            a <= b <= n,
            forall|i: int| b <= i < n ==> is_white_space(#[trigger] line@[i]),
        decreases b,
    {
        b = b - 1;
    }
    let ghost rest = line@.subrange(a as int, n as int);
    proof {
        assert forall|i: int| b - a <= i < rest.len() implies is_white_space(#[trigger] rest[i]) by {
            assert(rest[i] == line@[a + i]);
        }
        if b > a {
            assert(rest[b - a - 1] == line@[b - 1]);
        }
        lemma_trim_end(rest, (b - a) as int);
        assert(rest.subrange(0, (b - a) as int) =~= line@.subrange(a as int, b as int));
    }
    let mut r: Vec<char> = Vec::new();
    let mut i: usize = a;
    while i < b
        invariant
            n == line@.len(),
            a <= i <= b <= n,
            r@ == line@.subrange(a as int, i as int),
        decreases b - i,
    {
        r.push(line[i]);
        i = i + 1;
        proof {
            assert(r@ =~= line@.subrange(a as int, i as int));
        }
    }
    r
}

/// `s` begins with `p`.
pub open spec fn starts_with(s: Seq<char>, p: Seq<char>) -> bool {
    p.len() <= s.len() && s.subrange(0, p.len() as int) == p
}

/// `p` occurs in `s`.
pub open spec fn contains_seq(s: Seq<char>, p: Seq<char>) -> bool {
    exists|i: int| 0 <= i && i + p.len() <= s.len() && #[trigger] s.subrange(i, i + p.len()) == p
}

/// `true` when `s` begins with `p`.
fn has_prefix(s: &Vec<char>, p: &Vec<char>) -> (r: bool)
    ensures
        r == starts_with(s@, p@),
{
    if p.len() > s.len() {
        return false;
    }
    let mut i: usize = 0;
    while i < p.len()
        invariant
            p@.len() <= s@.len(),
            i <= p@.len(),
            forall|j: int| 0 <= j < i ==> s@[j] == p@[j],
        decreases p@.len() - i,
    {
        if s[i] != p[i] {
            proof {
                assert(s@.subrange(0, p@.len() as int)[i as int] != p@[i as int]);
            }
            return false;
        }
        i = i + 1;
    }
    proof {
        assert(s@.subrange(0, p@.len() as int) =~= p@);
    }
    true
}

/// `true` when `p` occurs in `s`.
pub(crate) fn has_infix(s: &Vec<char>, p: &Vec<char>) -> (r: bool)
    ensures
        r == contains_seq(s@, p@),
{
    if p.len() == 0 {
        assert(s@.subrange(0int, 0int + p@.len()) =~= p@);
        return true;
    }
    let mut i: usize = 0;
    while i < s.len()
        invariant
            p@.len() > 0,
            i <= s@.len(),
            forall|k: int| 0 <= k < i ==> #[trigger] s@.subrange(k, k + p@.len()) != p@ || k + p@.len() > s@.len(),
        decreases s@.len() - i,
    {
        if p.len() <= s.len() - i {
            let mut j: usize = 0;
            let mut same = true;
            while j < p.len() && same
                invariant
                    i < s@.len(),
                    s@.len() == s.len(),
                    i + p@.len() <= s@.len(),
                    j <= p@.len(),
                    same ==> forall|x: int| 0 <= x < j ==> s@[i + x] == p@[x],
                    !same ==> s@.subrange(i as int, i + p@.len()) != p@,
                decreases p@.len() - j + if same { 1int } else { 0int },
            {
                if s[i + j] != p[j] {
                    proof {
                        assert(s@.subrange(i as int, i + p@.len())[j as int] != p@[j as int]);
                    }
                    same = false;
                } else {
                    j = j + 1;
                }
            }
            if same {
                proof {
                    assert(s@.subrange(i as int, i + p@.len()) =~= p@);
                }
                return true;
            }
        }
        i = i + 1;
    }
    proof {
        assert forall|k: int| 0 <= k && k + p@.len() <= s@.len() implies #[trigger] s@.subrange(k, k + p@.len()) != p@ by {
            assert(k < s@.len());
        }
    }
    false
}

/// A trimmed line that starts with one of these is left out of the SQL dump.
pub open spec fn is_ignored(t: Seq<char>) -> bool {
    ||| starts_with(t, "ALTER"@)
    ||| starts_with(t, "ADD"@)
    ||| starts_with(t, "MODIFY"@)
    ||| starts_with(t, "SET"@)
    ||| starts_with(t, "--"@)
    ||| starts_with(t, "/*"@)
}

/// The line is kept: once trimmed it is not empty and does not start with an ignored
/// keyword.
pub open spec fn is_kept(line: Seq<char>) -> bool {
    trimmed(line).len() > 0 && !is_ignored(trimmed(line))
}

/// What a kept line becomes: the statement end ");" for a line that names the
/// storage engine, else the line itself (trimmed, when `trim` holds); then a newline.
pub open spec fn sql_output_line(line: Seq<char>, trim: bool) -> Seq<char> {
    let text = if trim {
        trimmed(line)
    } else {
        line
    };
    if contains_seq(text, "ENGINE=InnoDB"@) {
        ");\n"@
    } else {
        text + "\n"@
    }
}

/// The lines of `s` as `str::lines` gives them: split at each '\n', a '\r' just before
/// a '\n' dropped, and a last line kept only when not empty. The pair holds the lines
/// ended so far and the line still open.
pub open spec fn split_lines(s: Seq<char>) -> (Seq<Seq<char>>, Seq<char>)
    decreases s.len(),
{
    if s.len() == 0 {
        (Seq::empty(), Seq::empty())
    } else {
        let (done, open) = split_lines(s.drop_last());
        if s.last() == '\n' {
            (done.push(strip_cr(open)), Seq::empty())
        } else {
            (done, open.push(s.last()))
        }
    }
}

/// A line ended by "\r\n" without its '\r'.
pub open spec fn strip_cr(line: Seq<char>) -> Seq<char> {
    if line.len() > 0 && line.last() == '\r' {
        line.drop_last()
    } else {
        line
    }
}

/// The lines of `s`, as `str::lines` gives them.
pub open spec fn lines_of(s: Seq<char>) -> Seq<Seq<char>> {
    let (done, open) = split_lines(s);
    if open.len() > 0 {
        done.push(open)
    } else {
        done
    }
}

/// The output made of a list of lines: each kept line as `sql_output_line` makes it.
pub open spec fn sql_output(lines: Seq<Seq<char>>, trim: bool) -> Seq<char>
    decreases lines.len(),
{
    if lines.len() == 0 {
        Seq::empty()
    } else {
        let prev = sql_output(lines.drop_last(), trim);
        if is_kept(lines.last()) {
            prev + sql_output_line(lines.last(), trim)
        } else {
            prev
        }
    }
}

/// A string made of the given characters, with `String`'s `FromIterator<char>`.
/// Claimed: the string holds exactly those characters, in order.
#[verifier::external_body]
pub(crate) fn string_from_chars(chars: &Vec<char>) -> (r: String)
    ensures
        r@ == chars@,
{
    chars.iter().collect()
}

/// The output for one line.
fn output_line(
    line: &Vec<char>,
    trim: bool,
    patterns: &Vec<Vec<char>>,
    engine: &Vec<char>,
    out: &mut Vec<char>,
)
    requires
        patterns@.len() == 6,
        patterns@[0]@ == "ALTER"@,
        patterns@[1]@ == "ADD"@,
        patterns@[2]@ == "MODIFY"@,
        patterns@[3]@ == "SET"@,
        patterns@[4]@ == "--"@,
        patterns@[5]@ == "/*"@,
        engine@ == "ENGINE=InnoDB"@,
    ensures
        final(out)@ == old(out)@ + if is_kept(line@) {
            sql_output_line(line@, trim)
        } else {
            Seq::empty()
        },
{
    let t = trim_chars(line);
    if t.len() == 0 {
        assert(old(out)@ + Seq::<char>::empty() =~= old(out)@);
        return;
    }
    let ignored = has_prefix(&t, &patterns[0]) || has_prefix(&t, &patterns[1]) || has_prefix(
        &t,
        &patterns[2],
    ) || has_prefix(&t, &patterns[3]) || has_prefix(&t, &patterns[4]) || has_prefix(&t, &patterns[5]);
    if ignored {
        assert(old(out)@ + Seq::<char>::empty() =~= old(out)@);
        return;
    }
    let text = if trim {
        t
    } else {
        let mut copy: Vec<char> = Vec::new();
        let mut i: usize = 0;
        while i < line.len()
            invariant
                i <= line@.len(),
                copy@ == line@.subrange(0, i as int),
            decreases line@.len() - i,
        {
            copy.push(line[i]);
            i = i + 1;
        }
        assert(copy@ =~= line@);
        copy
    };
    let ghost before = out@;
    if has_infix(&text, engine) {
        out.push(')');
        out.push(';');
        out.push('\n');
        proof {
            reveal_strlit(");\n");
            assert(out@ =~= before + ");\n"@);
        }
    } else {
        let mut i: usize = 0;
        while i < text.len()
            invariant
                i <= text@.len(),
                out@ == before + text@.subrange(0, i as int),
            decreases text@.len() - i,
        {
            out.push(text[i]);
            i = i + 1;
            proof {
                assert(out@ =~= before + text@.subrange(0, i as int));
            }
        }
        out.push('\n');
        proof {
            reveal_strlit("\n");
            assert(out@ =~= before + (text@ + "\n"@));
        }
    }
}

/// The SQL dump cleaned for execution, line by line: blank lines and lines starting
/// with an ignored keyword go; a line naming the storage engine becomes ");"; every
/// kept line ends with a newline. Kept lines are trimmed when `trim` holds.
fn clean_sql(contents: &str, trim: bool) -> (r: String)
    ensures
        r@ == sql_output(lines_of(contents@), trim),
{
    let chars = chars_of(contents);
    let mut patterns: Vec<Vec<char>> = Vec::new();
    patterns.push(chars_of("ALTER"));
    patterns.push(chars_of("ADD"));
    patterns.push(chars_of("MODIFY"));
    patterns.push(chars_of("SET"));
    patterns.push(chars_of("--"));
    patterns.push(chars_of("/*"));
    let engine = chars_of("ENGINE=InnoDB");
    let ghost s = chars@;
    let mut out: Vec<char> = Vec::new();
    let mut line: Vec<char> = Vec::new();
    let ghost mut done: Seq<Seq<char>> = Seq::empty();
    let mut i: usize = 0;
    while i < chars.len()
        invariant
            s == chars@,
            s == contents@,
            patterns@.len() == 6,
            patterns@[0]@ == "ALTER"@,
            patterns@[1]@ == "ADD"@,
            patterns@[2]@ == "MODIFY"@,
            patterns@[3]@ == "SET"@,
            patterns@[4]@ == "--"@,
            patterns@[5]@ == "/*"@,
            engine@ == "ENGINE=InnoDB"@,
            i <= s.len(),
            split_lines(s.subrange(0, i as int)) == (done, line@),
            out@ == sql_output(done, trim),
        decreases s.len() - i,
    {
        let c = chars[i];
        proof {
            assert(s.subrange(0, i + 1).drop_last() =~= s.subrange(0, i as int));
            assert(s.subrange(0, i + 1).last() == c);
        }
        if c == '\n' {
            let mut ended = line;
            if ended.len() > 0 && ended[ended.len() - 1] == '\r' {
                ended.pop();
            }
            proof {
                assert(ended@ =~= strip_cr(line@));
            }
            output_line(&ended, trim, &patterns, &engine, &mut out);
            proof {
                let old_done = done;
                done = done.push(ended@);
                assert(done.drop_last() =~= old_done);
                assert(done.last() == ended@);
                assert(sql_output(done, trim) == sql_output(done.drop_last(), trim) + if is_kept(ended@) {
                    sql_output_line(ended@, trim)
                } else {
                    Seq::empty()
                }) by {
                    if !is_kept(ended@) {
                        assert(sql_output(done.drop_last(), trim) + Seq::<char>::empty() =~= sql_output(
                            done.drop_last(),
                            trim,
                        ));
                    }
                }
            }
            line = Vec::new();
            proof {
                assert(line@ =~= Seq::<char>::empty());
            }
        } else {
            line.push(c);
        }
        i = i + 1;
    }
    proof {
        assert(s.subrange(0, s.len() as int) =~= s);
    }
    if line.len() > 0 {
        let ghost before = out@;
        output_line(&line, trim, &patterns, &engine, &mut out);
        proof {
            let all = done.push(line@);
            assert(all.drop_last() =~= done);
            if !is_kept(line@) {
                assert(before + Seq::<char>::empty() =~= before);
            }
        }
    }
    string_from_chars(&out)
}

/// The SQL dump cleaned for execution: blank lines and lines starting with "ALTER",
/// "ADD", "MODIFY", "SET", "--" or "/*" (once trimmed) go; a line naming the storage
/// engine becomes ");"; every kept line is trimmed and ends with a newline.
pub fn preprocess_sql(contents: &str) -> (r: String)
    ensures
        r@ == sql_output(lines_of(contents@), true),
{
    clean_sql(contents, true)
}

/// The SQL dump cleaned for execution as `preprocess_sql` does, but with kept lines
/// left untrimmed.
pub fn preprocess_sql_file(contents: String) -> (r: String)
    ensures
        r@ == sql_output(lines_of(contents@), false),
{
    clean_sql(contents.as_str(), false)
}


/// A row of the professors table: name and tax id (RFC).
#[derive(Clone, Debug)]
pub struct ProfessorRow {
    pub nombre: String,
    pub rfc: String,
}

/// A row of the classes table: description, the RFCs of the theory and laboratory
/// professors (the second blank when there is no laboratory), term, group code and
/// class code.
#[derive(Clone, Debug)]
pub struct ClassRow {
    pub descripcion: String,
    pub rfc1: String,
    pub rfc2: String,
    pub ciclo: String,
    pub grupo: String,
    pub asign: String,
}

/// Some class row names `rfc` as its theory or laboratory professor.
pub open spec fn rfc_used(class_rows: Seq<ClassRow>, rfc: Seq<char>) -> bool {
    exists|i: int| 0 <= i < class_rows.len() && (class_rows[i].rfc1@ == rfc || class_rows[i].rfc2@ == rfc)
}

/// The professors among `professor_rows` that some class row names, in order.
pub open spec fn used_professors(class_rows: Seq<ClassRow>, professor_rows: Seq<ProfessorRow>) -> Seq<ProfessorRow>
    decreases professor_rows.len(),
{
    if professor_rows.len() == 0 {
        Seq::empty()
    } else {
        let prev = used_professors(class_rows, professor_rows.drop_last());
        if rfc_used(class_rows, professor_rows.last().rfc@) {
            prev.push(professor_rows.last())
        } else {
            prev
        }
    }
}

/// `true` when some class row names `rfc`.
fn is_rfc_used(class_rows: &[ClassRow], rfc: &String) -> (r: bool)
    ensures
        r == rfc_used(class_rows@, rfc@),
{
    let mut i: usize = 0;
    while i < class_rows.len()
        invariant
            i <= class_rows@.len(),
            forall|j: int| 0 <= j < i ==> !(class_rows@[j].rfc1@ == rfc@ || class_rows@[j].rfc2@ == rfc@),
        decreases class_rows@.len() - i,
    {
        if class_rows[i].rfc1 == *rfc || class_rows[i].rfc2 == *rfc {
            return true;
        }
        i = i + 1;
    }
    false
}

/// Keeps the professors that some class row names (as theory or laboratory
/// professor), in order.
pub fn filter_unused_professors(class_rows: &[ClassRow], professor_rows: Vec<ProfessorRow>) -> (r: Vec<
    ProfessorRow,
>)
    ensures
        r@ == used_professors(class_rows@, professor_rows@),
{
    let mut r: Vec<ProfessorRow> = Vec::new();
    let mut i: usize = 0;
    while i < professor_rows.len()
        invariant
            i <= professor_rows@.len(),
            r@ == used_professors(class_rows@, professor_rows@.subrange(0, i as int)),
        decreases professor_rows@.len() - i,
    {
        let row = &professor_rows[i];
        proof {
            assert(professor_rows@.subrange(0, i + 1).drop_last() =~= professor_rows@.subrange(0, i as int));
            assert(professor_rows@.subrange(0, i + 1).last() == *row);
        }
        if is_rfc_used(class_rows, &row.rfc) {
            r.push(ProfessorRow { nombre: row.nombre.clone(), rfc: row.rfc.clone() });
        }
        i = i + 1;
    }
    proof {
        assert(professor_rows@.subrange(0, professor_rows@.len() as int) =~= professor_rows@);
    }
    r
}


/// Why a schedule could not be built from the table rows.
#[derive(Debug)]
pub enum ImportError {
    /// Two professors share this RFC.
    DuplicateRfc(String),
    /// No professor has the theory professor's RFC of a class.
    ProfessorNotFound { rfc: String, class_code: String, description: String },
    /// No professor has the laboratory professor's RFC of a class.
    LabProfessorNotFound { rfc: String, class_code: String, description: String },
    /// The group code of a class does not give a semester and a group.
    SemesterGroupNotParsed { group_code: String, description: String },
}

/// How a class is shown, as plain values: name, colour and code.
pub open spec fn meta_view(m: ClassMetadata) -> (Seq<char>, Seq<u8>, Seq<char>) {
    (m.name@, m.rgba@, m.class_code@)
}

/// The row has a laboratory: its laboratory professor's RFC is not blank.
pub open spec fn has_lab(row: ClassRow) -> bool {
    trimmed(row.rfc2@).len() > 0
}

/// Some professor row has RFC `rfc`.
pub open spec fn rfc_known(professor_rows: Seq<ProfessorRow>, rfc: Seq<char>) -> bool {
    exists|i: int| 0 <= i < professor_rows.len() && professor_rows[i].rfc@ == rfc
}

/// The key of the professor with RFC `rfc` (the position of their row).
pub open spec fn rfc_key(professor_rows: Seq<ProfessorRow>, rfc: Seq<char>) -> ProfessorKey {
    ProfessorKey((choose|i: int| 0 <= i < professor_rows.len() && professor_rows[i].rfc@ == rfc) as usize)
}

/// No two professor rows share an RFC.
pub open spec fn rfcs_distinct(professor_rows: Seq<ProfessorRow>) -> bool {
    forall|i: int, j: int| 0 <= i < j < professor_rows.len() ==> professor_rows[i].rfc@ != professor_rows[j].rfc@
}

/// The first professor row whose RFC an earlier row already has.
pub open spec fn first_duplicate(professor_rows: Seq<ProfessorRow>) -> int {
    choose|j: int|
        0 <= j < professor_rows.len() && (exists|i: int| 0 <= i < j && professor_rows[i].rfc@ == professor_rows[j].rfc@)
            && rfcs_distinct(professor_rows.subrange(0, j))
}

/// The class row can be imported: its professors are known and its group code parses.
pub open spec fn row_importable(professor_rows: Seq<ProfessorRow>, row: ClassRow) -> bool {
    &&& rfc_known(professor_rows, row.rfc1@)
    &&& has_lab(row) ==> rfc_known(professor_rows, row.rfc2@)
    &&& semester_group_of(row.grupo@) is Some
}

/// The classes of the rows, in the order of the table: each row gives a theory class
/// and, when it has a laboratory, a laboratory class right after it.
pub open spec fn imported_classes(professor_rows: Seq<ProfessorRow>, class_rows: Seq<ClassRow>) -> Seq<Class>
    decreases class_rows.len(),
{
    if class_rows.len() == 0 {
        Seq::empty()
    } else {
        let prev = imported_classes(professor_rows, class_rows.drop_last());
        let row = class_rows.last();
        let (semester, group) = semester_group_of(row.grupo@)->0;
        let optative = row.asign@.len() >= 2 && row.asign@[0] == '0' && row.asign@[1] == '0';
        let theory = Class {
            professor_key: rfc_key(professor_rows, row.rfc1@),
            allowed_classroom_types: theory_rooms(),
            class_hours: 2,
            semester,
            group,
            optative,
        };
        let lab = Class {
            professor_key: rfc_key(professor_rows, row.rfc2@),
            allowed_classroom_types: lab_rooms(),
            class_hours: 3,
            semester,
            group,
            optative,
        };
        if has_lab(row) {
            prev.push(theory).push(lab)
        } else {
            prev.push(theory)
        }
    }
}

/// The classes made from the first rows come first, in the same order, among the
/// classes made from all the rows.
proof fn lemma_imported_prefix(professor_rows: Seq<ProfessorRow>, class_rows: Seq<ClassRow>, j: int)
    requires
        0 <= j <= class_rows.len(),
    ensures
        imported_classes(professor_rows, class_rows.subrange(0, j)).len() <= imported_classes(
            professor_rows,
            class_rows,
        ).len(),
        forall|i: int|
            0 <= i < imported_classes(professor_rows, class_rows.subrange(0, j)).len() ==> #[trigger] imported_classes(
                professor_rows,
                class_rows,
            )[i] == imported_classes(professor_rows, class_rows.subrange(0, j))[i],
    decreases class_rows.len(),
{
    if j < class_rows.len() {
        let shorter = class_rows.drop_last();
        assert(shorter.subrange(0, j) =~= class_rows.subrange(0, j));
        lemma_imported_prefix(professor_rows, shorter, j);
    } else {
        assert(class_rows.subrange(0, j) =~= class_rows);
    }
}

/// Every class made from a row whose group code parses has the semester and group of
/// that code: the theory class of row `j`, and its laboratory class right after it
/// when the row has one, both get `semester_group_of(grupo)`.
pub proof fn lemma_imported_semester_group(professor_rows: Seq<ProfessorRow>, class_rows: Seq<ClassRow>, j: int)
    requires
        0 <= j < class_rows.len(),
        semester_group_of(class_rows[j].grupo@) is Some,
    ensures
        ({
            let classes = imported_classes(professor_rows, class_rows);
            let c = imported_classes(professor_rows, class_rows.subrange(0, j)).len() as int;
            let (semester, group) = semester_group_of(class_rows[j].grupo@)->0;
            &&& c < classes.len()
            &&& classes[c].semester == semester
            &&& classes[c].group == group
            &&& has_lab(class_rows[j]) ==> {
                &&& c + 1 < classes.len()
                &&& classes[c + 1].semester == semester
                &&& classes[c + 1].group == group
            }
        }),
{
    let upto = class_rows.subrange(0, j + 1);
    assert(upto.drop_last() =~= class_rows.subrange(0, j));
    assert(upto.last() == class_rows[j]);
    lemma_imported_prefix(professor_rows, class_rows, j + 1);
    let c = imported_classes(professor_rows, class_rows.subrange(0, j)).len() as int;
    assert(imported_classes(professor_rows, upto)[c] == imported_classes(professor_rows, class_rows)[c]);
    if has_lab(class_rows[j]) {
        assert(imported_classes(professor_rows, upto)[c + 1] == imported_classes(professor_rows, class_rows)[c + 1]);
    }
}

/// How the classes of the rows are shown: the theory class under the row's
/// description, the laboratory class under the description followed by " (Lab)", both
/// with the row's code and the colour of the row.
pub open spec fn imported_meta(class_rows: Seq<ClassRow>, colors: Seq<[u8; 4]>) -> Seq<(Seq<char>, Seq<u8>, Seq<char>)>
    decreases class_rows.len(),
{
    if class_rows.len() == 0 {
        Seq::empty()
    } else {
        let n = class_rows.len() - 1;
        let prev = imported_meta(class_rows.drop_last(), colors);
        let row = class_rows.last();
        let color = colors[n % colors.len() as int]@;
        let theory = (row.descripcion@, color, row.asign@);
        let lab = (row.descripcion@ + " (Lab)"@, color, row.asign@);
        if has_lab(row) {
            prev.push(theory).push(lab)
        } else {
            prev.push(theory)
        }
    }
}

/// The room kinds of a theory class: single and double classrooms.
pub open spec fn theory_rooms() -> AllowedClassroomTypes {
    AllowedClassroomTypes {
        aula_simple: true,
        aula_doble: true,
        lab_quimica: false,
        lab_fisica: false,
        aula_computo: false,
        not_assigned: false,
    }
}

/// The room kinds of a laboratory class: the physics and chemistry laboratories.
pub open spec fn lab_rooms() -> AllowedClassroomTypes {
    AllowedClassroomTypes {
        aula_simple: false,
        aula_doble: false,
        lab_quimica: true,
        lab_fisica: true,
        aula_computo: false,
        not_assigned: false,
    }
}

/// Adds a class with the given attributes, shown with the given name, colour and code.
pub(crate) fn add_imported_class(
    schedule: &mut SchoolSchedule,
    professor_key: ProfessorKey,
    semester: Semester,
    group: Group,
    optative: bool,
    class_hours: u8,
    rooms: AllowedClassroomTypes,
    name: String,
    class_code: String,
    rgba: [u8; 4],
)
    requires
        old(schedule).wf(),
    ensures
        final(schedule).wf(),
        final(schedule).constraints().classes@ == old(schedule).constraints().classes@.push(
            Class { professor_key, allowed_classroom_types: rooms, class_hours, semester, group, optative },
        ),
        final(schedule).constraints().professors@ == old(schedule).constraints().professors@,
        final(schedule).professor_meta() == old(schedule).professor_meta(),
        final(schedule).class_meta().map_values(|m: ClassMetadata| meta_view(m)) == old(schedule).class_meta().map_values(
            |m: ClassMetadata| meta_view(m),
        ).push((name@, rgba@, class_code@)),
        final(schedule).calendar().counts() == old(schedule).calendar().counts().push(
            Seq::new(DATA_LEN as nat, |c: int| 0u8).update(cell_index(0, 0), class_hours),
        ),
{
    let key = schedule.add_new_class(professor_key);
    let ghost after_add = *schedule;
    let mut entry = schedule.get_class_entry(key).unwrap();
    entry.set_semester(semester);
    entry.set_group(group);
    entry.set_optative(optative);
    entry.set_professor_id(professor_key);
    entry.set_hours(class_hours);
    entry.set_allowed_classroom_types(rooms);
    let ghost after_edit = *schedule;
    let meta = schedule.get_class_metadata_mut(key).unwrap();
    meta.rgba = rgba;
    meta.name = name;
    meta.class_code = class_code;
    proof {
        let k = key.0 as int;
        after_add.calendar().lemma_wf();
        after_edit.calendar().lemma_wf();
        old(schedule).calendar().lemma_wf();
        assert(schedule.calendar().counts() =~= old(schedule).calendar().counts().push(
            Seq::new(DATA_LEN as nat, |c: int| 0u8).update(cell_index(0, 0), class_hours),
        )) by {
            assert(after_add.calendar().counts()[k] == Seq::new(DATA_LEN as nat, |c: int| 0u8));
            assert(schedule.calendar().counts()[k] =~= Seq::new(DATA_LEN as nat, |c: int| 0u8).update(
                cell_index(0, 0),
                class_hours,
            ));
        }
        assert(schedule.class_meta().map_values(|m: ClassMetadata| meta_view(m)) =~= old(schedule).class_meta().map_values(
            |m: ClassMetadata| meta_view(m),
        ).push((name@, rgba@, class_code@)));
        assert(schedule.constraints().classes@ =~= old(schedule).constraints().classes@.push(
            Class { professor_key, allowed_classroom_types: rooms, class_hours, semester, group, optative },
        ));
    }
}


/// The first class row among the first `n` that cannot be imported.
pub open spec fn first_unimportable(professor_rows: Seq<ProfessorRow>, class_rows: Seq<ClassRow>, n: int) -> int {
    choose|j: int|
        0 <= j < n && !row_importable(professor_rows, class_rows[j]) && forall|k: int|
            0 <= k < j ==> row_importable(professor_rows, #[trigger] class_rows[k])
}

/// `e` is the error for class row `row`: a missing theory professor first, then a
/// missing laboratory professor, then a group code that does not parse.
pub open spec fn row_error(professor_rows: Seq<ProfessorRow>, row: ClassRow, e: ImportError) -> bool {
    if !rfc_known(professor_rows, row.rfc1@) {
        e matches ImportError::ProfessorNotFound { rfc, class_code, description } && rfc@ == row.rfc1@
            && class_code@ == row.asign@ && description@ == row.descripcion@
    } else if has_lab(row) && !rfc_known(professor_rows, row.rfc2@) {
        e matches ImportError::LabProfessorNotFound { rfc, class_code, description } && rfc@ == row.rfc2@
            && class_code@ == row.asign@ && description@ == row.descripcion@
    } else {
        e matches ImportError::SemesterGroupNotParsed { group_code, description } && group_code@
            == row.grupo@ && description@ == row.descripcion@
    }
}

/// The position of the first of the first `limit` professor rows with RFC `rfc`,
/// when there is one.
fn find_rfc(professor_rows: &[ProfessorRow], limit: usize, rfc: &String) -> (r: Option<usize>)
    requires
        limit <= professor_rows@.len(),
    ensures
        r is None <==> !rfc_known(professor_rows@.subrange(0, limit as int), rfc@),
        r matches Some(i) ==> i < limit && professor_rows@[i as int].rfc@ == rfc@,
        r matches Some(i) ==> forall|j: int| 0 <= j < i ==> professor_rows@[j].rfc@ != rfc@,
{
    let mut i: usize = 0;
    while i < limit
        invariant
            limit <= professor_rows@.len(),
            i <= limit,
            forall|j: int| 0 <= j < i ==> professor_rows@[j].rfc@ != rfc@,
        decreases limit - i,
    {
        if professor_rows[i].rfc == *rfc {
            proof {
                assert(professor_rows@.subrange(0, limit as int)[i as int] == professor_rows@[i as int]);
            }
            return Some(i);
        }
        i = i + 1;
    }
    proof {
        if rfc_known(professor_rows@.subrange(0, limit as int), rfc@) {
            let j = choose|j: int| 0 <= j < limit && professor_rows@.subrange(0, limit as int)[j].rfc@ == rfc@;
            assert(professor_rows@.subrange(0, limit as int)[j] == professor_rows@[j]);
        }
    }
    None
}

/// The key of the professor with RFC `rfc`, given that RFCs are distinct.
proof fn lemma_rfc_key(professor_rows: Seq<ProfessorRow>, i: int)
    requires
        rfcs_distinct(professor_rows),
        0 <= i < professor_rows.len(),
    ensures
        rfc_key(professor_rows, professor_rows[i].rfc@) == ProfessorKey(i as usize),
{
    let rfc = professor_rows[i].rfc@;
    let c = choose|c: int| 0 <= c < professor_rows.len() && professor_rows[c].rfc@ == rfc;
    if c < i {
        assert(professor_rows[c].rfc@ != professor_rows[i].rfc@);
    } else if c > i {
        assert(professor_rows[i].rfc@ != professor_rows[c].rfc@);
    }
}

/// What building a schedule from the rows gives: on a duplicate RFC, that error for
/// the first duplicated one; otherwise success exactly when every class row taken (all
/// of them, or none when there are no colours) can be imported, the error of the first
/// that cannot, and on success the professors and classes that the rows describe.
pub open spec fn import_outcome(
    professor_rows: Seq<ProfessorRow>,
    class_rows: Seq<ClassRow>,
    colors: Seq<[u8; 4]>,
    r: Result<SchoolSchedule, ImportError>,
) -> bool {
    &&& (!rfcs_distinct(professor_rows) ==> (r matches Err(ImportError::DuplicateRfc(rfc)) && rfc@
        == professor_rows[first_duplicate(professor_rows)].rfc@))
    &&& (rfcs_distinct(professor_rows) ==> {
        let n = if colors.len() == 0 {
            0
        } else {
            class_rows.len() as int
        };
        &&& r is Ok <==> forall|i: int| 0 <= i < n ==> row_importable(professor_rows, #[trigger] class_rows[i])
        &&& r matches Err(e) ==> row_error(
            professor_rows,
            class_rows[first_unimportable(professor_rows, class_rows, n)],
            e,
        )
        &&& r matches Ok(schedule) ==> {
            &&& schedule.wf()
            &&& schedule.constraints().professors@.len() == professor_rows.len()
            &&& forall|i: int|
                0 <= i < professor_rows.len() ==> #[trigger] schedule.professor_meta()[i].name@
                    == professor_rows[i].nombre@
            &&& schedule.constraints().classes@ == imported_classes(
                professor_rows,
                class_rows.subrange(0, n),
            )
            &&& schedule.class_meta().map_values(|m: ClassMetadata| meta_view(m)) == imported_meta(
                class_rows.subrange(0, n),
                colors,
            )
        }
    })
}

/// In a schedule that `create_schedule` built, the theory class of class row `j` and
/// its laboratory class, when the row has one, have the semester and group that the
/// row's group code gives.
pub proof fn lemma_created_semester_group(
    professor_rows: Seq<ProfessorRow>,
    class_rows: Seq<ClassRow>,
    colors: Seq<[u8; 4]>,
    r: Result<SchoolSchedule, ImportError>,
    j: int,
)
    requires
        import_outcome(professor_rows, class_rows, colors, r),
        colors.len() > 0,
        0 <= j < class_rows.len(),
    ensures
        r matches Ok(schedule) ==> {
            let classes = schedule.constraints().classes@;
            let c = imported_classes(professor_rows, class_rows.subrange(0, j)).len() as int;
            &&& semester_group_of(class_rows[j].grupo@) is Some
            &&& c < classes.len()
            &&& Some((classes[c].semester, classes[c].group)) == semester_group_of(class_rows[j].grupo@)
            &&& has_lab(class_rows[j]) ==> c + 1 < classes.len() && Some(
                (classes[c + 1].semester, classes[c + 1].group),
            ) == semester_group_of(class_rows[j].grupo@)
        },
{
    if r is Ok {
        assert(rfcs_distinct(professor_rows));
        assert(row_importable(professor_rows, class_rows[j]));
        assert(class_rows.subrange(0, class_rows.len() as int) =~= class_rows);
        lemma_imported_semester_group(professor_rows, class_rows, j);
    }
}

/// Builds a schedule from the professor and class rows: one professor per row, named
/// after it; then, for each class row taken with the next colour of `colors` (round
/// the list), a theory class of two weekly hours in single or double classrooms with
/// the professor of the first RFC, and, when the row names a second RFC, a laboratory
/// class of three weekly hours in the laboratories with that professor. Both get the
/// row's semester and group, are optative when the row's code starts with "00", and
/// are shown in the row's colour with its code. With no colours no class is made.
/// Fails on a duplicate RFC, or at the first class row whose professors are unknown
/// or whose group code does not parse.
#[verifier::spinoff_prover]
#[verifier::rlimit(60)]
pub fn create_schedule(professor_rows: &[ProfessorRow], class_rows: &[ClassRow], colors: &Vec<[u8; 4]>) -> (r:
    Result<SchoolSchedule, ImportError>)
    ensures
        import_outcome(professor_rows@, class_rows@, colors@, r),
{
    let mut schedule = SchoolSchedule::new();
    let mut i: usize = 0;
    while i < professor_rows.len()
        invariant
            schedule.wf(),
            i <= professor_rows@.len(),
            schedule.constraints().professors@.len() == i,
            schedule.professor_meta().len() == i,
            forall|j: int| 0 <= j < i ==> #[trigger] schedule.professor_meta()[j].name@ == professor_rows@[j].nombre@,
            schedule.constraints().classes@.len() == 0,
            schedule.class_meta().len() == 0,
            rfcs_distinct(professor_rows@.subrange(0, i as int)),
        decreases professor_rows@.len() - i,
    {
        let row = &professor_rows[i];
        let ghost old_meta = schedule.professor_meta();
        let key = schedule.add_new_professor();
        let ghost added_meta = schedule.professor_meta();
        let meta = schedule.get_professor_metadata_mut(key).unwrap();
        meta.name = row.nombre.clone();
        proof {
            assert forall|j: int| 0 <= j < i + 1 implies #[trigger] schedule.professor_meta()[j].name@
                == professor_rows@[j].nombre@ by {
                if j < i {
                    assert(added_meta.drop_last()[j] == old_meta[j]);
                    assert(schedule.professor_meta()[j] == added_meta[j]);
                }
            }
        }
        match find_rfc(professor_rows, i, &row.rfc) {
            Some(j) => {
                proof {
                    let prefix = professor_rows@.subrange(0, i as int);
                    assert(professor_rows@.subrange(0, i as int)[j as int] == professor_rows@[j as int]);
                    let w = first_duplicate(professor_rows@);
                    assert(0 <= i < professor_rows@.len() && (exists|x: int| 0 <= x < i && professor_rows@[x].rfc@ == professor_rows@[i as int].rfc@)
                        && rfcs_distinct(professor_rows@.subrange(0, i as int)));
                    if w < i {
                        let x = choose|x: int| 0 <= x < w && professor_rows@[x].rfc@ == professor_rows@[w].rfc@;
                        assert(prefix[x] == professor_rows@[x]);
                        assert(prefix[w] == professor_rows@[w]);
                    } else if w > i {
                        assert(professor_rows@.subrange(0, w)[j as int] == professor_rows@[j as int]);
                        assert(professor_rows@.subrange(0, w)[i as int] == professor_rows@[i as int]);
                    }
                }
                return Err(ImportError::DuplicateRfc(row.rfc.clone()));
            },
            None => {},
        }
        proof {
            let next = professor_rows@.subrange(0, i + 1);
            assert forall|a: int, b: int| 0 <= a < b < i + 1 implies (#[trigger] next[a]).rfc@
                != (#[trigger] next[b]).rfc@ by {
                if b == i {
                    assert(professor_rows@.subrange(0, i as int)[a] == professor_rows@[a]);
                } else {
                    assert(professor_rows@.subrange(0, i as int)[a] == professor_rows@[a]);
                    assert(professor_rows@.subrange(0, i as int)[b] == professor_rows@[b]);
                }
            }
        }
        i = i + 1;
    }
    proof {
        assert(professor_rows@.subrange(0, professor_rows@.len() as int) =~= professor_rows@);
    }
    let n = if colors.len() == 0 {
        0
    } else {
        class_rows.len()
    };
    let mut k: usize = 0;
    while k < n
        invariant
            schedule.wf(),
            rfcs_distinct(professor_rows@),
            professor_rows@.subrange(0, professor_rows@.len() as int) == professor_rows@,
            n == (if colors@.len() == 0 { 0 } else { class_rows@.len() as int }),
            k <= n,
            schedule.constraints().professors@.len() == professor_rows@.len(),
            forall|j: int|
                0 <= j < professor_rows@.len() ==> #[trigger] schedule.professor_meta()[j].name@
                    == professor_rows@[j].nombre@,
            schedule.professor_meta().len() == professor_rows@.len(),
            schedule.constraints().classes@ == imported_classes(professor_rows@, class_rows@.subrange(0, k as int)),
            schedule.class_meta().map_values(|m: ClassMetadata| meta_view(m)) == imported_meta(
                class_rows@.subrange(0, k as int),
                colors@,
            ),
            forall|j: int| 0 <= j < k ==> row_importable(professor_rows@, #[trigger] class_rows@[j]),
        decreases n - k,
    {
        let row = &class_rows[k];
        let color = colors[k % colors.len()];
        let rows_before = Ghost(class_rows@.subrange(0, k as int));
        proof {
            assert(class_rows@.subrange(0, k + 1).drop_last() =~= class_rows@.subrange(0, k as int));
            assert(class_rows@.subrange(0, k + 1).last() == *row);
            assert(class_rows@.subrange(0, k + 1).len() - 1 == k);
        }
        let rfc2 = chars_of(row.rfc2.as_str());
        let lab = trim_chars(&rfc2).len() > 0;
        let theory_index = match find_rfc(professor_rows, professor_rows.len(), &row.rfc1) {
            Some(j) => j,
            None => {
                proof {
                    assert(!row_importable(professor_rows@, class_rows@[k as int]));
                    lemma_first_unimportable(professor_rows@, class_rows@, n as int, k as int);
                }
                return Err(
                    ImportError::ProfessorNotFound {
                        rfc: row.rfc1.clone(),
                        class_code: row.asign.clone(),
                        description: row.descripcion.clone(),
                    },
                );
            },
        };
        let lab_index = if lab {
            match find_rfc(professor_rows, professor_rows.len(), &row.rfc2) {
                Some(j) => j,
                None => {
                    proof {
                        assert(!row_importable(professor_rows@, class_rows@[k as int]));
                        lemma_first_unimportable(professor_rows@, class_rows@, n as int, k as int);
                    }
                    return Err(
                        ImportError::LabProfessorNotFound {
                            rfc: row.rfc2.clone(),
                            class_code: row.asign.clone(),
                            description: row.descripcion.clone(),
                        },
                    );
                },
            }
        } else {
            0
        };
        let (semester, group) = match parse_semester_group(row.grupo.as_str()) {
            Some(x) => x,
            None => {
                proof {
                    assert(!row_importable(professor_rows@, class_rows@[k as int]));
                    lemma_first_unimportable(professor_rows@, class_rows@, n as int, k as int);
                }
                return Err(
                    ImportError::SemesterGroupNotParsed {
                        group_code: row.grupo.clone(),
                        description: row.descripcion.clone(),
                    },
                );
            },
        };
        let optative = is_optative(row.asign.as_str());
        proof {
            lemma_rfc_key(professor_rows@, theory_index as int);
            if lab {
                lemma_rfc_key(professor_rows@, lab_index as int);
            }
        }
        let theory_rooms = AllowedClassroomTypes {
            aula_simple: true,
            aula_doble: true,
            lab_quimica: false,
            lab_fisica: false,
            aula_computo: false,
            not_assigned: false,
        };
        add_imported_class(
            &mut schedule,
            ProfessorKey(theory_index),
            semester,
            group,
            optative,
            2,
            theory_rooms,
            row.descripcion.clone(),
            row.asign.clone(),
            color,
        );
        if lab {
            let lab_rooms = AllowedClassroomTypes {
                aula_simple: false,
                aula_doble: false,
                lab_quimica: true,
                lab_fisica: true,
                aula_computo: false,
                not_assigned: false,
            };
            let mut name = row.descripcion.clone();
            name.append(" (Lab)");
            add_imported_class(
                &mut schedule,
                ProfessorKey(lab_index),
                semester,
                group,
                optative,
                3,
                lab_rooms,
                name,
                row.asign.clone(),
                color,
            );
        }
        proof {
            assert(row_importable(professor_rows@, class_rows@[k as int]));
        }
        k = k + 1;
    }
    proof {
        assert forall|i2: int| 0 <= i2 < n implies row_importable(professor_rows@, #[trigger] class_rows@[i2]) by {}
    }
    Ok(schedule)
}

/// A row that cannot be imported, after rows that all can, is the first such row.
proof fn lemma_first_unimportable(professor_rows: Seq<ProfessorRow>, class_rows: Seq<ClassRow>, n: int, k: int)
    requires
        0 <= k < n,
        !row_importable(professor_rows, class_rows[k]),
        forall|j: int| 0 <= j < k ==> row_importable(professor_rows, #[trigger] class_rows[j]),
    ensures
        first_unimportable(professor_rows, class_rows, n) == k,
{
    let c = first_unimportable(professor_rows, class_rows, n);
    if c < k {
        assert(row_importable(professor_rows, class_rows[c]));
    } else if c > k {
        assert(row_importable(professor_rows, class_rows[k]));
    }
}

/// The colour that `csscolorparser` reads from a CSS colour text, as 8-bit red,
/// green, blue and alpha, or `None` where it reads no colour.
pub uninterp spec fn css_color_rgba(s: Seq<char>) -> Option<[u8; 4]>;

/// Reads a CSS colour (a name such as `"teal"`, `#rrggbb`, `rgb(..)` and the other
/// forms that `csscolorparser::parse` accepts) and turns it into 8-bit channels with
/// `Color::to_rgba8`. Claimed: the result depends on the text alone, and is `None`
/// exactly when the parser refuses the text; which colour a text gives is left to the
/// crate.
#[verifier::external_body]
fn parse_css_color(s: &str) -> (r: Option<[u8; 4]>)
    ensures
        r == css_color_rgba(s@),
{
    match csscolorparser::parse(s) {
        Ok(color) => Some(color.to_rgba8()),
        Err(_) => None,
    }
}

/// The 8-bit colours of a list of CSS colour texts, in order, or `None` when one of
/// them is not a colour.
pub fn parse_color_list(names: &Vec<String>) -> (r: Option<Vec<[u8; 4]>>)
    ensures
        r is Some <==> forall|i: int| 0 <= i < names@.len() ==> #[trigger] css_color_rgba(names@[i]@) is Some,
        r matches Some(colors) ==> {
            &&& colors@.len() == names@.len()
            &&& forall|i: int| 0 <= i < names@.len() ==> Some(#[trigger] colors@[i]) == css_color_rgba(names@[i]@)
        },
{
    let mut colors: Vec<[u8; 4]> = Vec::new();
    let mut i: usize = 0;
    while i < names.len()
        invariant
            i <= names@.len(),
            colors@.len() == i,
            forall|j: int| 0 <= j < i ==> Some(#[trigger] colors@[j]) == css_color_rgba(names@[j]@),
        decreases names@.len() - i,
    {
        match parse_css_color(names[i].as_str()) {
            Some(c) => colors.push(c),
            None => {
                return None;
            },
        }
        i = i + 1;
    }
    proof {
        assert forall|j: int| 0 <= j < names@.len() implies #[trigger] css_color_rgba(names@[j]@) is Some by {
            assert(Some(colors@[j]) == css_color_rgba(names@[j]@));
        }
    }
    Some(colors)
}

/// Where the two SQL dumps of the database are read from.
#[derive(Clone, Debug)]
pub struct ImportSchedulePaths {
    pub materias_sql_path: String,
    pub profesores_sql_path: String,
}

impl Default for ImportSchedulePaths {
    /// The dumps `Materias.sql` and `Profesores.sql` in the folder `Archivos SQL`.
    fn default() -> (r: Self)
        ensures
            r.materias_sql_path@ == "Archivos SQL/Materias.sql"@,
            r.profesores_sql_path@ == "Archivos SQL/Profesores.sql"@,
    {
        ImportSchedulePaths {
            materias_sql_path: String::from_str("Archivos SQL/Materias.sql"),
            profesores_sql_path: String::from_str("Archivos SQL/Profesores.sql"),
        }
    }
}

/// The class rows that the import takes: those of term "2022-2", whose group code
/// starts with "02", other than the course "CURSO TALLER DE DIDÁCTICA II".
pub open spec fn row_selected(row: ClassRow) -> bool {
    &&& row.ciclo@ == "2022-2"@
    &&& starts_with(row.grupo@, "02"@)
    &&& row.descripcion@ != "CURSO TALLER DE DIDÁCTICA II"@
}

/// The class rows that the import takes, in order.
pub open spec fn selected_rows(class_rows: Seq<ClassRow>) -> Seq<ClassRow>
    decreases class_rows.len(),
{
    if class_rows.len() == 0 {
        Seq::empty()
    } else {
        let prev = selected_rows(class_rows.drop_last());
        if row_selected(class_rows.last()) {
            prev.push(class_rows.last())
        } else {
            prev
        }
    }
}

/// Keeps the class rows that the import takes, in order.
pub fn select_class_rows(class_rows: &[ClassRow]) -> (r: Vec<ClassRow>)
    ensures
        r@ == selected_rows(class_rows@),
{
    let term = String::from_str("2022-2");
    let excluded = String::from_str("CURSO TALLER DE DIDÁCTICA II");
    let prefix = chars_of("02");
    let mut r: Vec<ClassRow> = Vec::new();
    let mut i: usize = 0;
    while i < class_rows.len()
        invariant
            i <= class_rows@.len(),
            term@ == "2022-2"@,
            excluded@ == "CURSO TALLER DE DIDÁCTICA II"@,
            prefix@ == "02"@,
            r@ == selected_rows(class_rows@.subrange(0, i as int)),
        decreases class_rows@.len() - i,
    {
        let row = &class_rows[i];
        proof {
            assert(class_rows@.subrange(0, i + 1).drop_last() =~= class_rows@.subrange(0, i as int));
            assert(class_rows@.subrange(0, i + 1).last() == *row);
        }
        let group_chars = chars_of(row.grupo.as_str());
        if row.ciclo == term && has_prefix(&group_chars, &prefix) && !(row.descripcion == excluded) {
            r.push(
                ClassRow {
                    descripcion: row.descripcion.clone(),
                    rfc1: row.rfc1.clone(),
                    rfc2: row.rfc2.clone(),
                    ciclo: row.ciclo.clone(),
                    grupo: row.grupo.clone(),
                    asign: row.asign.clone(),
                },
            );
        }
        i = i + 1;
    }
    proof {
        assert(class_rows@.subrange(0, class_rows@.len() as int) =~= class_rows@);
    }
    r
}

/// Builds the schedule from the rows of the two tables: keeps the class rows that the
/// import takes, then the professors that those rows name, and builds the schedule
/// from them with the colours `colors`.
pub fn import_schedule_rows(
    professor_rows: Vec<ProfessorRow>,
    class_rows: Vec<ClassRow>,
    colors: &Vec<[u8; 4]>,
) -> (r: Result<SchoolSchedule, ImportError>)
    ensures
        ({
            let classes = selected_rows(class_rows@);
            import_outcome(used_professors(classes, professor_rows@), classes, colors@, r)
        }),
{
    let classes = select_class_rows(class_rows.as_slice());
    let professors = filter_unused_professors(classes.as_slice(), professor_rows);
    create_schedule(professors.as_slice(), classes.as_slice(), colors)
}

} // verus!
