//! Compact JSON text for the requests that the client sends.
use vstd::prelude::*;

verus! {

broadcast use vstd::string::group_string_axioms;

/// Appends one character to a string.
#[verifier::external_body]
pub(crate) fn push_char(s: &mut String, c: char)
    ensures
        final(s)@ == old(s)@.push(c),
{
    s.push(c);
}

/// Lower-case hexadecimal digit of a value below sixteen.
pub open spec fn hex_digit(v: nat) -> char {
    if v < 10 {
        ((v + 48) as u8) as char
    } else {
        ((v + 87) as u8) as char
    }
}

/// How one character stands inside a JSON string literal: quote and
/// backslash are escaped, the control characters with a short form get it,
/// the other control characters become `\u00XX`, everything else stays.
pub open spec fn escape_char(c: char) -> Seq<char> {
    if c == '"' {
        seq!['\\', '"']
    } else if c == '\\' {
        seq!['\\', '\\']
    } else if c == '\u{8}' {
        seq!['\\', 'b']
    } else if c == '\t' {
        seq!['\\', 't']
    } else if c == '\n' {
        seq!['\\', 'n']
    } else if c == '\u{c}' {
        seq!['\\', 'f']
    } else if c == '\r' {
        seq!['\\', 'r']
    } else if (c as u32) < 0x20 {
        seq!['\\', 'u', '0', '0', hex_digit((c as u32 / 16) as nat), hex_digit((c as u32 % 16) as nat)]
    } else {
        seq![c]
    }
}

/// The escaped body of a JSON string literal.
pub open spec fn escape_str(s: Seq<char>) -> Seq<char>
    decreases s.len(),
{
    if s.len() == 0 {
        Seq::empty()
    } else {
        escape_str(s.drop_last()) + escape_char(s.last())
    }
}

/// A JSON string literal holding `s`.
pub open spec fn json_string(s: Seq<char>) -> Seq<char> {
    seq!['"'] + escape_str(s) + seq!['"']
}

/// Decimal digits of a natural number, without sign or leading zeros.
pub open spec fn decimal(n: nat) -> Seq<char>
    decreases n,
{
    if n < 10 {
        seq![hex_digit(n)]
    } else {
        decimal(n / 10).push(hex_digit(n % 10))
    }
}

/// The elements of a JSON array of strings, separated by commas.
pub open spec fn string_list(items: Seq<Seq<char>>) -> Seq<char>
    decreases items.len(),
{
    if items.len() == 0 {
        Seq::empty()
    } else if items.len() == 1 {
        json_string(items[0])
    } else {
        string_list(items.drop_last()) + seq![','] + json_string(items.last())
    }
}

fn push_escaped(out: &mut String, c: char)
    ensures
        final(out)@ == old(out)@ + escape_char(c),
{
    if c == '"' {
        push_char(out, '\\');
        push_char(out, '"');
    } else if c == '\\' {
        push_char(out, '\\');
        push_char(out, '\\');
    } else if c == '\u{8}' {
        push_char(out, '\\');
        push_char(out, 'b');
    } else if c == '\t' {
        push_char(out, '\\');
        push_char(out, 't');
    } else if c == '\n' {
        push_char(out, '\\');
        push_char(out, 'n');
    } else if c == '\u{c}' {
        push_char(out, '\\');
        push_char(out, 'f');
    } else if c == '\r' {
        push_char(out, '\\');
        push_char(out, 'r');
    } else if (c as u32) < 0x20 {
        let v: u32 = c as u32;
        push_char(out, '\\');
        push_char(out, 'u');
        push_char(out, '0');
        push_char(out, '0');
        push_char(out, digit_char(v / 16));
        push_char(out, digit_char(v % 16));
    } else {
        push_char(out, c);
    }
    assert(final(out)@ =~= old(out)@ + escape_char(c));
}

fn digit_char(v: u32) -> (c: char)
    requires
        v < 16,
    ensures
        c == hex_digit(v as nat),
{
    if v < 10 {
        ((v + 48) as u8) as char
    } else {
        ((v + 87) as u8) as char
    }
}

/// Appends `s` to `out` as a JSON string literal.
pub fn push_json_string(out: &mut String, s: &str)
    ensures
        final(out)@ == old(out)@ + json_string(s@),
{
    let ghost start = out@;
    push_char(out, '"');
    let mut chars = s.chars();
    let ghost mut done: Seq<char> = Seq::empty();
    loop
        invariant
            done + vstd::std_specs::iter::IteratorSpec::remaining(&chars) == s@,
            out@ == start + seq!['"'] + escape_str(done),
        ensures
            done == s@,
            out@ == start + seq!['"'] + escape_str(done),
        decreases s@.len() - done.len(),
    {
        let ghost before = vstd::std_specs::iter::IteratorSpec::remaining(&chars);
        match chars.next() {
            Some(c) => {
                proof {
                    assert(before.len() > 0);
                    assert(c == before[0]);
                    assert(done.push(c) + vstd::std_specs::iter::IteratorSpec::remaining(&chars) =~= done + before);
                    assert(done.push(c).drop_last() =~= done);
                }
                push_escaped(out, c);
                proof {
                    done = done.push(c);
                }
            },
            None => {
                proof {
                    assert(before.len() == 0);
                    assert(done =~= s@);
                }
                break;
            },
        }
    }
    push_char(out, '"');
    assert(out@ =~= start + json_string(s@));
}

/// Appends the decimal digits of `n` to `out`.
pub fn push_decimal(out: &mut String, n: u64)
    ensures
        final(out)@ == old(out)@ + decimal(n as nat),
    decreases n,
{
    if n >= 10 {
        push_decimal(out, n / 10);
    }
    let d: u32 = (n % 10) as u32;
    push_char(out, digit_char(d));
    assert(final(out)@ =~= old(out)@ + decimal(n as nat));
}

/// Appends the strings of `items` to `out` as the elements of a JSON array.
pub fn push_string_list(out: &mut String, items: &Vec<String>)
    ensures
        final(out)@ == old(out)@ + string_list(items.deep_view()),
{
    let ghost start = out@;
    let ghost views = items.deep_view();
    let mut i: usize = 0;
    while i < items.len()
        invariant
            i <= items.len(),
            views == items.deep_view(),
            out@ == start + string_list(views.take(i as int)),
        decreases items.len() - i,
    {
        if i > 0 {
            push_char(out, ',');
        }
        push_json_string(out, items[i].as_str());
        proof {
            let next = views.take(i + 1);
            assert(next.drop_last() =~= views.take(i as int));
            assert(next.last() == items@[i as int]@);
            if i == 0 {
                assert(next.len() == 1);
                assert(string_list(views.take(i as int)) =~= Seq::<char>::empty());
            }
            assert(out@ =~= start + string_list(next));
        }
        i = i + 1;
    }
    assert(views.take(items.len() as int) =~= views);
}


// ---------------------------------------------------------------------------
// Reading back what is written
// ---------------------------------------------------------------------------

/// The value of a lower-case hexadecimal digit.
pub open spec fn hex_value(c: char) -> int {
    if 48 <= c as u32 && c as u32 <= 57 {
        c as u32 - 48
    } else {
        c as u32 - 87
    }
}

/// A lower-case hexadecimal digit.
pub open spec fn is_hex_char(c: char) -> bool {
    (48 <= c as u32 && c as u32 <= 57) || (97 <= c as u32 && c as u32 <= 102)
}

/// The character that a one-letter escape (after a backslash) stands for.
pub open spec fn unescaped(e: char) -> Option<char> {
    if e == '"' {
        Some('"')
    } else if e == '\\' {
        Some('\\')
    } else if e == '/' {
        Some('/')
    } else if e == 'b' {
        Some('\u{8}')
    } else if e == 't' {
        Some('\t')
    } else if e == 'n' {
        Some('\n')
    } else if e == 'f' {
        Some('\u{c}')
    } else if e == 'r' {
        Some('\r')
    } else {
        None
    }
}

/// Reads the body of a JSON string literal from `t` up to its closing
/// quote: the characters it stands for and the index of that quote.
pub open spec fn read_string_body(t: Seq<char>) -> Option<(Seq<char>, int)>
    decreases t.len(),
{
    if t.len() == 0 {
        None
    } else if t[0] == '"' {
        Some((Seq::empty(), 0))
    } else if t[0] == '\\' {
        if t.len() >= 6 && t[1] == 'u' && is_hex_char(t[2]) && is_hex_char(t[3]) && is_hex_char(t[4])
            && is_hex_char(t[5]) {
            let v = hex_value(t[2]) * 4096 + hex_value(t[3]) * 256 + hex_value(t[4]) * 16
                + hex_value(t[5]);
            match read_string_body(t.skip(6)) {
                Some((body, k)) => Some((seq![(v as u32) as char] + body, k + 6)),
                None => None,
            }
        } else if t.len() >= 2 && unescaped(t[1]) is Some {
            match read_string_body(t.skip(2)) {
                Some((body, k)) => Some((seq![unescaped(t[1])->0] + body, k + 2)),
                None => None,
            }
        } else {
            None
        }
    } else {
        match read_string_body(t.skip(1)) {
            Some((body, k)) => Some((seq![t[0]] + body, k + 1)),
            None => None,
        }
    }
}

/// Reads a JSON string literal at the start of `t`: the string it holds and
/// how many characters the literal takes.
pub open spec fn read_json_string(t: Seq<char>) -> Option<(Seq<char>, int)> {
    if t.len() > 0 && t[0] == '"' {
        match read_string_body(t.skip(1)) {
            Some((body, k)) => Some((body, k + 2)),
            None => None,
        }
    } else {
        None
    }
}

/// The value of a string of decimal digits.
pub open spec fn digits_value(s: Seq<char>) -> int
    decreases s.len(),
{
    if s.len() == 0 {
        0
    } else {
        digits_value(s.drop_last()) * 10 + (s.last() as u32 - 48)
    }
}

/// An ASCII digit.
pub open spec fn is_digit_char(c: char) -> bool {
    48 <= c as u32 && c as u32 <= 57
}

proof fn lemma_escape_concat(a: Seq<char>, b: Seq<char>)
    ensures
        escape_str(a + b) == escape_str(a) + escape_str(b),
    decreases b.len(),
{
    if b.len() == 0 {
        assert(a + b =~= a);
        assert(escape_str(a) + escape_str(b) =~= escape_str(a));
    } else {
        lemma_escape_concat(a, b.drop_last());
        assert((a + b).drop_last() =~= a + b.drop_last());
        assert((a + b).last() == b.last());
        assert(escape_str(a + b) =~= escape_str(a) + escape_str(b));
    }
}

proof fn lemma_escape_front(s: Seq<char>)
    requires
        s.len() > 0,
    ensures
        escape_str(s) == escape_char(s[0]) + escape_str(s.skip(1)),
{
    lemma_escape_concat(seq![s[0]], s.skip(1));
    assert(seq![s[0]] + s.skip(1) =~= s);
    let one = seq![s[0]];
    assert(one.drop_last() =~= Seq::<char>::empty());
    assert(one.last() == s[0]);
    assert(escape_str(one.drop_last()) == Seq::<char>::empty());
    assert(escape_str(one) == escape_str(one.drop_last()) + escape_char(one.last()));
    assert(escape_str(one) =~= escape_char(s[0]));
}

proof fn lemma_hex_digit_value(v: nat)
    requires
        v < 16,
    ensures
        is_hex_char(hex_digit(v)),
        hex_value(hex_digit(v)) == v,
{
}

/// Reading one escaped character in front of more text gives that
/// character in front of what the rest reads as.
proof fn lemma_read_escaped_char(c: char, x: Seq<char>)
    requires
        read_string_body(x) is Some,
    ensures
        read_string_body(escape_char(c) + x) == Some((
            seq![c] + read_string_body(x).unwrap().0,
            escape_char(c).len() + read_string_body(x).unwrap().1,
        )),
{
    let t = escape_char(c) + x;
    let n = escape_char(c).len() as int;
    assert(t.skip(n) =~= x);
    if c == '"' || c == '\\' || c == '\u{8}' || c == '\t' || c == '\n' || c == '\u{c}' || c
        == '\r' {
        assert(t[0] == '\\');
        assert(t[1] == escape_char(c)[1]);
    } else if (c as u32) < 0x20 {
        let u = c as u32;
        lemma_hex_digit_value((u / 16) as nat);
        lemma_hex_digit_value((u % 16) as nat);
        assert(t[0] == '\\' && t[1] == 'u' && t[2] == '0' && t[3] == '0');
        assert(t[4] == hex_digit((u / 16) as nat));
        assert(t[5] == hex_digit((u % 16) as nat));
        assert(hex_value('0') == 0);
        let v = hex_value(t[2]) * 4096 + hex_value(t[3]) * 256 + hex_value(t[4]) * 16 + hex_value(
            t[5],
        );
        assert(v == u);
        assert(((u as u32) as char) == c);
    } else {
        assert(t[0] == c);
    }
}

/// The body of a JSON string literal reads back as the string it was
/// written from, and the closing quote is found right after it.
pub proof fn lemma_read_escaped(s: Seq<char>, rest: Seq<char>)
    ensures
        read_string_body(escape_str(s) + seq!['"'] + rest) == Some((s, escape_str(s).len() as int)),
    decreases s.len(),
{
    if s.len() == 0 {
        assert(escape_str(s) + seq!['"'] + rest =~= seq!['"'] + rest);
        assert(s =~= Seq::<char>::empty());
    } else {
        let tail = s.skip(1);
        lemma_read_escaped(tail, rest);
        lemma_escape_front(s);
        let x = escape_str(tail) + seq!['"'] + rest;
        lemma_read_escaped_char(s[0], x);
        assert(escape_str(s) + seq!['"'] + rest =~= escape_char(s[0]) + x);
        assert(seq![s[0]] + tail =~= s);
    }
}

/// A JSON string literal reads back as the string it holds, whatever
/// follows it: the literal is self-delimiting.
pub proof fn lemma_read_json_string(s: Seq<char>, rest: Seq<char>)
    ensures
        read_json_string(json_string(s) + rest) == Some((s, json_string(s).len() as int)),
{
    let t = json_string(s) + rest;
    assert(t.skip(1) =~= escape_str(s) + seq!['"'] + rest);
    lemma_read_escaped(s, rest);
}

/// Two texts that each start with a JSON string literal are equal only if
/// the literals hold the same string and what follows them is equal.
pub proof fn lemma_json_string_prefix(a: Seq<char>, x: Seq<char>, b: Seq<char>, y: Seq<char>)
    requires
        json_string(a) + x == json_string(b) + y,
    ensures
        a == b,
        x == y,
{
    lemma_read_json_string(a, x);
    lemma_read_json_string(b, y);
    let n = json_string(a).len() as int;
    assert((json_string(a) + x).skip(n) =~= x);
    assert((json_string(b) + y).skip(n) =~= y);
}

/// A JSON string literal is never empty and starts with a quote.
pub proof fn lemma_json_string_starts(s: Seq<char>)
    ensures
        json_string(s).len() >= 2,
        json_string(s)[0] == '"',
{
}

/// The decimal digits of `n` are digits, without a leading zero, and their
/// value is `n`.
pub proof fn lemma_decimal_value(n: nat)
    ensures
        decimal(n).len() >= 1,
        n >= 10 ==> decimal(n).len() >= 2,
        forall|i: int| 0 <= i < decimal(n).len() ==> is_digit_char(#[trigger] decimal(n)[i]),
        decimal(n).len() > 1 ==> decimal(n)[0] != '0',
        digits_value(decimal(n)) == n,
    decreases n,
{
    let dn = decimal(n);
    assert(digits_value(dn) == digits_value(dn.drop_last()) * 10 + (dn.last() as u32 - 48));
    if n < 10 {
        assert(dn.drop_last() =~= Seq::<char>::empty());
        assert(digits_value(dn.drop_last()) == 0);
    } else {
        lemma_decimal_value(n / 10);
        assert(n == (n / 10) * 10 + n % 10);
        let d = decimal(n / 10);
        assert(decimal(n) == d.push(hex_digit(n % 10)));
        assert(decimal(n).drop_last() =~= d);
        assert forall|i: int| 0 <= i < decimal(n).len() implies is_digit_char(
            #[trigger] decimal(n)[i],
        ) by {
            if i < d.len() {
                assert(decimal(n)[i] == d[i]);
            }
        }
        assert(decimal(n)[0] == d[0]);
        if n / 10 < 10 {
            assert(d == seq![hex_digit(n / 10)]);
            assert(d[0] == hex_digit(n / 10));
        }
    }
}

/// Distinct numbers have distinct decimal digits.
pub proof fn lemma_decimal_injective(m: nat, n: nat)
    requires
        decimal(m) == decimal(n),
    ensures
        m == n,
{
    lemma_decimal_value(m);
    lemma_decimal_value(n);
}

/// A list of two or more strings starts with the first of them and a comma.
pub proof fn lemma_string_list_front(items: Seq<Seq<char>>)
    requires
        items.len() >= 2,
    ensures
        string_list(items) == json_string(items[0]) + seq![','] + string_list(items.skip(1)),
    decreases items.len(),
{
    let rest = items.skip(1);
    let dl = items.drop_last();
    assert(string_list(items) == string_list(dl) + seq![','] + json_string(items.last()));
    if items.len() == 2 {
        assert(dl.len() == 1);
        assert(string_list(dl) == json_string(dl[0]));
        assert(dl[0] == items[0]);
        assert(rest.len() == 1);
        assert(string_list(rest) == json_string(rest[0]));
        assert(rest[0] == items.last());
    } else {
        lemma_string_list_front(dl);
        assert(dl.skip(1) =~= rest.drop_last());
        assert(rest.last() == items.last());
        assert(dl[0] == items[0]);
        assert(string_list(rest) == string_list(rest.drop_last()) + seq![','] + json_string(
            rest.last(),
        ));
        assert(string_list(items) =~= json_string(items[0]) + seq![','] + string_list(rest));
    }
}

/// Appending a string to a non-empty list appends a comma and its literal.
pub proof fn lemma_string_list_push(items: Seq<Seq<char>>, x: Seq<char>)
    requires
        items.len() > 0,
    ensures
        string_list(items.push(x)) == string_list(items) + seq![','] + json_string(x),
{
    assert(items.push(x).drop_last() =~= items);
}

/// A list of strings tells its strings: two lists that read the same hold
/// the same strings, in the same order, all of them.
pub proof fn lemma_string_list_injective(a: Seq<Seq<char>>, b: Seq<Seq<char>>)
    requires
        string_list(a) == string_list(b),
    ensures
        a == b,
    decreases a.len(),
{
    if a.len() == 0 {
        if b.len() > 0 {
            lemma_json_string_starts(b[0]);
            if b.len() >= 2 {
                lemma_string_list_front(b);
            }
            assert(string_list(b).len() > 0);
        }
        assert(a =~= b);
    } else if b.len() == 0 {
        lemma_json_string_starts(a[0]);
        if a.len() >= 2 {
            lemma_string_list_front(a);
        }
        assert(string_list(a).len() > 0);
    } else {
        let ra: Seq<char> = if a.len() >= 2 {
            seq![','] + string_list(a.skip(1))
        } else {
            Seq::empty()
        };
        let rb: Seq<char> = if b.len() >= 2 {
            seq![','] + string_list(b.skip(1))
        } else {
            Seq::empty()
        };
        if a.len() >= 2 {
            lemma_string_list_front(a);
            assert(string_list(a) =~= json_string(a[0]) + ra);
        } else {
            assert(string_list(a) =~= json_string(a[0]) + ra);
        }
        if b.len() >= 2 {
            lemma_string_list_front(b);
            assert(string_list(b) =~= json_string(b[0]) + rb);
        } else {
            assert(string_list(b) =~= json_string(b[0]) + rb);
        }
        lemma_json_string_prefix(a[0], ra, b[0], rb);
        if a.len() >= 2 && b.len() >= 2 {
            assert(ra.skip(1) =~= string_list(a.skip(1)));
            assert(rb.skip(1) =~= string_list(b.skip(1)));
            lemma_string_list_injective(a.skip(1), b.skip(1));
            assert(a =~= seq![a[0]] + a.skip(1));
            assert(b =~= seq![b[0]] + b.skip(1));
        } else if a.len() >= 2 {
            assert(ra.len() > 0);
        } else if b.len() >= 2 {
            assert(rb.len() > 0);
        } else {
            assert(a =~= b);
        }
    }
}

/// Every string of a list stands in it as its own literal.
pub proof fn lemma_string_list_contains(items: Seq<Seq<char>>, i: int)
    requires
        0 <= i < items.len(),
    ensures
        exists|k: int|
            0 <= k && k + json_string(items[i]).len() <= string_list(items).len()
                && #[trigger] string_list(items).subrange(k, k + json_string(items[i]).len())
                == json_string(items[i]),
    decreases items.len(),
{
    let l = string_list(items);
    let js = json_string(items[i]);
    if items.len() == 1 {
        assert(l == json_string(items[0]));
        let k: int = 0;
        assert(l.subrange(k, k + js.len()) =~= js);
    } else {
        let p = string_list(items.drop_last());
        assert(l == p + seq![','] + json_string(items.last()));
        if i == items.len() - 1 {
            let k = l.len() - js.len();
            assert(l.subrange(k, k + js.len()) =~= js);
        } else {
            lemma_string_list_contains(items.drop_last(), i);
            assert(items.drop_last()[i] == items[i]);
            let k = choose|k: int|
                0 <= k && k + js.len() <= p.len() && #[trigger] p.subrange(k, k + js.len()) == js;
            assert(l.subrange(k, k + js.len()) =~= p.subrange(k, k + js.len()));
        }
    }
}

} // verus!
