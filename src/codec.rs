use vstd::prelude::*;
use vstd::std_specs::iter::IteratorSpec;

use crate::message::{
    variant_name, ContentsView, EditorMessage, EditorMessageContents, IdeType, MessageView, UpdateMessageContents,
    UpdateView,
};

verus! {

broadcast use vstd::string::group_string_axioms;

/// Whether a character stands for itself inside a quoted string.
pub open spec fn is_plain(c: char) -> bool {
    c != '"' && c != '\\' && c != '\n' && c != '\r' && c != '\t'
}

/// How one character is written inside a quoted string.
pub open spec fn escape_char(c: char) -> Seq<char> {
    if c == '"' {
        seq!['\\', '"']
    } else if c == '\\' {
        seq!['\\', '\\']
    } else if c == '\n' {
        seq!['\\', 'n']
    } else if c == '\r' {
        seq!['\\', 'r']
    } else if c == '\t' {
        seq!['\\', 't']
    } else {
        seq![c]
    }
}

/// The body of a quoted string.
pub open spec fn escape(s: Seq<char>) -> Seq<char>
    decreases s.len(),
{
    if s.len() == 0 {
        seq![]
    } else {
        escape(s.drop_last()) + escape_char(s.last())
    }
}

/// A string as it is written on the wire.
pub open spec fn quoted(s: Seq<char>) -> Seq<char> {
    seq!['"'] + escape(s) + seq!['"']
}

proof fn lemma_escape_concat(a: Seq<char>, b: Seq<char>)
    ensures
        escape(a + b) == escape(a) + escape(b),
    decreases b.len(),
{
    if b.len() == 0 {
        assert(a + b =~= a);
        assert(escape(a) + escape(b) =~= escape(a));
    } else {
        assert((a + b).drop_last() =~= a + b.drop_last());
        lemma_escape_concat(a, b.drop_last());
        assert(escape(a + b) =~= escape(a) + escape(b));
    }
}

proof fn lemma_escape_plain(s: Seq<char>)
    requires
        forall|i: int| 0 <= i < s.len() ==> is_plain(#[trigger] s[i]),
    ensures
        escape(s) == s,
    decreases s.len(),
{
    if s.len() > 0 {
        lemma_escape_plain(s.drop_last());
        assert(escape(s) =~= s);
    }
}

/// The character of decimal digit `d`.
pub open spec fn digit_char(d: int) -> char {
    seq!['0', '1', '2', '3', '4', '5', '6', '7', '8', '9'][d]
}

/// The value of decimal digit `c`, or -1 where `c` is no digit.
pub open spec fn digit_value(c: char) -> int {
    if c == '0' {
        0
    } else if c == '1' {
        1
    } else if c == '2' {
        2
    } else if c == '3' {
        3
    } else if c == '4' {
        4
    } else if c == '5' {
        5
    } else if c == '6' {
        6
    } else if c == '7' {
        7
    } else if c == '8' {
        8
    } else if c == '9' {
        9
    } else {
        -1
    }
}

pub open spec fn is_digit(c: char) -> bool {
    digit_value(c) >= 0
}

/// A natural number in decimal, with no leading zero.
pub open spec fn decimal(n: nat) -> Seq<char>
    decreases n,
{
    if n < 10 {
        seq![digit_char(n as int)]
    } else {
        decimal(n / 10) + seq![digit_char((n % 10) as int)]
    }
}

/// The value of a run of decimal digits.
pub open spec fn digits_value(s: Seq<char>) -> int
    decreases s.len(),
{
    if s.len() == 0 {
        0
    } else {
        digits_value(s.drop_last()) * 10 + digit_value(s.last())
    }
}

proof fn lemma_digit_char(d: int)
    requires
        0 <= d < 10,
    ensures
        is_digit(digit_char(d)),
        digit_value(digit_char(d)) == d,
{
}

proof fn lemma_digit_round(c: char)
    requires
        is_digit(c),
    ensures
        digit_char(digit_value(c)) == c,
{
    let d = digit_value(c);
    lemma_digit_char(d);
}

proof fn lemma_decimal(n: nat)
    ensures
        decimal(n).len() >= 1,
        forall|i: int| 0 <= i < decimal(n).len() ==> is_digit(#[trigger] decimal(n)[i]),
        digits_value(decimal(n)) == n,
        (decimal(n)[0] == '0') == (n == 0),
        n == 0 ==> decimal(n).len() == 1,
    decreases n,
{
    if n < 10 {
        lemma_digit_char(n as int);
        assert(decimal(n).drop_last() =~= Seq::<char>::empty());
        assert(digits_value(decimal(n)) == digits_value(decimal(n).drop_last()) * 10
            + digit_value(decimal(n).last()));
    } else {
        lemma_decimal(n / 10);
        lemma_digit_char((n % 10) as int);
        assert(n == (n / 10) * 10 + n % 10);
        assert(decimal(n).drop_last() =~= decimal(n / 10));
        assert(digits_value(decimal(n)) == digits_value(decimal(n).drop_last()) * 10
            + digit_value(decimal(n).last()));
        assert(decimal(n).drop_last() =~= decimal(n / 10));
        assert forall|i: int| 0 <= i < decimal(n).len() implies is_digit(
            #[trigger] decimal(n)[i],
        ) by {
            if i < decimal(n).len() - 1 {
                assert(decimal(n)[i] == decimal(n / 10)[i]);
            }
        }
    }
}

proof fn lemma_digits_value_prefix(s: Seq<char>, k: int)
    requires
        0 <= k <= s.len(),
        forall|i: int| 0 <= i < s.len() ==> is_digit(#[trigger] s[i]),
    ensures
        0 <= digits_value(s.take(k)) <= digits_value(s),
    decreases s.len(),
{
    if s.len() > 0 {
        if k == s.len() {
            assert(s.take(k) =~= s);
            lemma_digits_value_prefix(s.drop_last(), k - 1);
            assert(s.drop_last().take(k - 1) =~= s.drop_last());
        } else {
            assert(s.take(k) =~= s.drop_last().take(k));
            lemma_digits_value_prefix(s.drop_last(), k);
            assert(s.drop_last().take(s.len() - 1) =~= s.drop_last());
            lemma_digits_value_prefix(s.drop_last(), s.len() - 1);
        }
    } else {
        assert(s.take(k) =~= s);
    }
}

proof fn lemma_canonical_digits(s: Seq<char>)
    requires
        s.len() >= 1,
        forall|i: int| 0 <= i < s.len() ==> is_digit(#[trigger] s[i]),
        s[0] != '0',
    ensures
        digits_value(s) >= 1,
        decimal(digits_value(s) as nat) == s,
    decreases s.len(),
{
    if s.len() == 1 {
        assert(s.drop_last() =~= Seq::<char>::empty());
        assert(digits_value(s) == digits_value(s.drop_last()) * 10 + digit_value(s.last()));
        assert(s.last() == s[0]);
        lemma_digit_round(s[0]);
        assert(decimal(digits_value(s) as nat) =~= s);
    } else {
        let t = s.drop_last();
        lemma_canonical_digits(t);
        let a = digits_value(t);
        let d = digit_value(s.last());
        assert(digits_value(s) == a * 10 + d);
        assert((a * 10 + d) / 10 == a && (a * 10 + d) % 10 == d) by (nonlinear_arith)
            requires
                0 <= d < 10,
                a >= 1,
        ;
        lemma_digit_round(s.last());
        assert(decimal(digits_value(s) as nat) =~= s);
    }
}

/// Appends `n` to `out` in decimal.
fn write_decimal(out: &mut String, n: u64)
    ensures
        final(out)@ == old(out)@ + decimal(n as nat),
    decreases n,
{
    if n >= 10 {
        write_decimal(out, n / 10);
    }
    let d = (n % 10) as usize;
    let digits = "0123456789";
    proof {
        reveal_strlit("0123456789");
        assert(digits@ =~= seq!['0', '1', '2', '3', '4', '5', '6', '7', '8', '9']);
    }
    let ghost before = out@;
    out.append(digits.substring_char(d, d + 1));
    proof {
        assert(digits@.subrange(d as int, d + 1) =~= seq![digit_char(d as int)]);
        if n >= 10 {
            assert(out@ =~= old(out)@ + decimal(n as nat));
        } else {
            assert(out@ =~= old(out)@ + decimal(n as nat));
        }
    }
}

/// The value of `c` as a decimal digit.
fn digit_of(c: char) -> (r: Option<u64>)
    ensures
        match r {
            Some(d) => is_digit(c) && d == digit_value(c),
            None => !is_digit(c),
        },
{
    match c {
        '0' => Some(0),
        '1' => Some(1),
        '2' => Some(2),
        '3' => Some(3),
        '4' => Some(4),
        '5' => Some(5),
        '6' => Some(6),
        '7' => Some(7),
        '8' => Some(8),
        '9' => Some(9),
        _ => None,
    }
}

/// Reads a decimal number of at most `limit` at `pos`.
fn parse_decimal(inp: &Vec<char>, pos: usize, limit: u64, Ghost(want): Ghost<nat>) -> (r: Option<
    (u64, usize),
>)
    requires
        pos <= inp@.len(),
    ensures
        r matches Some((v, end)) ==> pos < end <= inp@.len() && v <= limit && inp@.subrange(
            pos as int,
            end as int,
        ) == decimal(v as nat),
        ({
            let l = decimal(want).len();
            want <= limit && pos + l < inp@.len() && inp@.subrange(pos as int, pos + l)
                == decimal(want) && !is_digit(inp@[pos + l])
        }) ==> r == Some((want as u64, (pos + decimal(want).len()) as usize)),
{
    proof {
        lemma_decimal(want);
        lemma_decimal(0);
    }
    let ghost l = decimal(want).len();
    let ghost fits = want <= limit && pos + l < inp@.len() && inp@.subrange(pos as int, pos + l)
        == decimal(want) && !is_digit(inp@[pos + l]);
    if pos >= inp.len() {
        return None;
    }
    let c0 = digit_of(inp[pos]);
    if c0.is_none() {
        proof {
            if fits {
                assert(inp@[pos as int] == decimal(want)[0]);
            }
        }
        return None;
    }
    if c0 == Some(0u64) {
        proof {
            assert(inp@.subrange(pos as int, pos + 1) =~= decimal(0));
            if fits {
                assert(inp@[pos as int] == decimal(want)[0]);
            }
        }
        return Some((0, pos + 1));
    }
    let mut v: u64 = 0;
    let mut i: usize = pos;
    while i < inp.len()
        invariant
            pos <= i <= inp@.len(),
            pos < inp@.len(),
            inp@[pos as int] != '0',
            is_digit(inp@[pos as int]),
            forall|j: int| pos <= j < i ==> is_digit(#[trigger] inp@[j]),
            v as int == digits_value(inp@.subrange(pos as int, i as int)),
            v <= limit,
            fits ==> i <= pos + l,
            l == decimal(want).len(),
            fits == (want <= limit && pos + l < inp@.len() && inp@.subrange(pos as int, pos + l)
                == decimal(want) && !is_digit(inp@[pos + l])),
            digits_value(decimal(want)) == want,
            forall|j: int| 0 <= j < decimal(want).len() ==> is_digit(#[trigger] decimal(want)[j]),
        ensures
            pos < i <= inp@.len(),
            forall|j: int| pos <= j < i ==> is_digit(#[trigger] inp@[j]),
            v as int == digits_value(inp@.subrange(pos as int, i as int)),
            v <= limit,
            fits ==> i <= pos + l,
            i < inp@.len() ==> !is_digit(inp@[i as int]),
        decreases inp@.len() - i,
    {
        let d = match digit_of(inp[i]) {
            Some(d) => d,
            None => {
                break;
            },
        };
        let nv: u128 = (v as u128) * 10 + (d as u128);
        proof {
            assert(inp@.subrange(pos as int, i + 1).drop_last() =~= inp@.subrange(pos as int, i as int));
            if fits {
                if i == pos + l {
                    assert(false);
                }
                assert(inp@.subrange(pos as int, i + 1) =~= inp@.subrange(pos as int, pos + l).take(
                    i + 1 - pos,
                ));
                assert(inp@.subrange(pos as int, i + 1) =~= decimal(want).take(i + 1 - pos));
                lemma_digits_value_prefix(decimal(want), i + 1 - pos);
            }
        }
        if nv > limit as u128 {
            return None;
        }
        v = nv as u64;
        i = i + 1;
    }
    proof {
        let run = inp@.subrange(pos as int, i as int);
        assert forall|j: int| 0 <= j < run.len() implies is_digit(#[trigger] run[j]) by {
            assert(run[j] == inp@[pos + j]);
        }
        lemma_canonical_digits(run);
        if fits {
            if i < pos + l {
                assert(inp@[i as int] == decimal(want)[i - pos]);
            }
            assert(run =~= decimal(want));
        }
    }
    Some((v, i))
}

proof fn lemma_escape_at(w: Seq<char>, m: int)
    requires
        0 <= m < w.len(),
    ensures
        escape(w.take(m + 1)) == escape(w.take(m)) + escape_char(w[m]),
        escape(w) == escape(w.take(m)) + escape_char(w[m]) + escape(w.skip(m + 1)),
{
    assert(w.take(m + 1).drop_last() =~= w.take(m));
    lemma_escape_concat(w.take(m + 1), w.skip(m + 1));
    assert(w.take(m + 1) + w.skip(m + 1) =~= w);
}

proof fn lemma_escape_whole(w: Seq<char>)
    ensures
        w.take(w.len() as int) == w,
{
    assert(w.take(w.len() as int) =~= w);
}

/// The character that follows a backslash in the escape of `c`.
fn unescape(e: char) -> (r: Option<&'static str>)
    ensures
        match r {
            Some(t) => exists|c: char| !is_plain(c) && escape_char(c) == seq!['\\', e] && t@ == seq![c],
            None => forall|c: char| !is_plain(c) ==> escape_char(c) != seq!['\\', e],
        },
{
    proof {
        reveal_strlit("\"");
        reveal_strlit("\\");
        reveal_strlit("\n");
        reveal_strlit("\r");
        reveal_strlit("\t");
    }
    match e {
        '"' => {
            assert(escape_char('"') =~= seq!['\\', e]);
            Some("\"")
        },
        '\\' => {
            assert(escape_char('\\') =~= seq!['\\', e]);
            Some("\\")
        },
        'n' => {
            assert(escape_char('\n') =~= seq!['\\', e]);
            Some("\n")
        },
        'r' => {
            assert(escape_char('\r') =~= seq!['\\', e]);
            Some("\r")
        },
        't' => {
            assert(escape_char('\t') =~= seq!['\\', e]);
            Some("\t")
        },
        _ => {
            assert forall|c: char| !is_plain(c) implies escape_char(c) != seq!['\\', e] by {
                assert(escape_char(c)[1] != e);
            }
            None
        },
    }
}

/// Reads a quoted string at `pos`; `inp` holds the characters of `text`.
#[verifier::rlimit(60)]
fn parse_quoted(text: &str, inp: &Vec<char>, pos: usize, Ghost(want): Ghost<Seq<char>>) -> (r: Option<
    (String, usize),
>)
    requires
        inp@ == text@,
        pos <= inp@.len(),
    ensures
        r matches Some((x, end)) ==> pos < end <= inp@.len() && inp@.subrange(pos as int, end as int)
            == quoted(x@),
        (pos + quoted(want).len() <= inp@.len() && inp@.subrange(pos as int, pos + quoted(want).len())
            == quoted(want)) ==> (r matches Some((x, end)) && x@ == want && end == pos + quoted(
            want,
        ).len()),
{
    let ghost q = quoted(want);
    let ghost fits = pos + q.len() <= inp@.len() && inp@.subrange(pos as int, pos + q.len()) == q;
    proof {
        if fits {
            assert(inp@[pos as int] == q[0]);
        }
    }
    if pos >= inp.len() || inp[pos] != '"' {
        return None;
    }
    let mut out = String::new();
    let mut start: usize = pos + 1;
    let mut i: usize = pos + 1;
    let ghost mut m: int = 0;
    proof {
        assert(inp@.subrange(pos as int, start as int) =~= seq!['"'] + escape(out@));
        assert(want.take(0) =~= Seq::<char>::empty());
        assert(out@ + inp@.subrange(start as int, i as int) =~= want.take(0));
    }
    loop
        invariant
            inp@ == text@,
            pos + 1 <= start <= i <= inp@.len(),
            q == quoted(want),
            fits == (pos + q.len() <= inp@.len() && inp@.subrange(pos as int, pos + q.len()) == q),
            inp@.subrange(pos as int, start as int) == seq!['"'] + escape(out@),
            forall|j: int| start <= j < i ==> is_plain(#[trigger] inp@[j]),
            fits ==> 0 <= m <= want.len() && i == pos + 1 + escape(want.take(m)).len() && out@
                + inp@.subrange(start as int, i as int) == want.take(m),
        decreases inp@.len() - i,
    {
        proof {
            if fits {
                if m < want.len() {
                    lemma_escape_at(want, m);
                } else {
                    lemma_escape_whole(want);
                }
                assert(q =~= seq!['"'] + escape(want) + seq!['"']);
            }
        }
        if i >= inp.len() {
            return None;
        }
        let c = inp[i];
        let ghost run = inp@.subrange(start as int, i as int);
        proof {
            lemma_escape_plain(run);
            lemma_escape_concat(out@, run);
            if fits {
                assert(inp@[i as int] == q[i - pos]);
                if m < want.len() {
                    assert(q[i - pos] == escape_char(want[m])[0]);
                } else {
                    assert(q[i - pos] == '"');
                }
            }
        }
        if c == '"' {
            let ghost o0 = out@;
            out.append(text.substring_char(start, i));
            proof {
                assert(out@ == o0 + run);
                assert(inp@.subrange(pos as int, i + 1) =~= inp@.subrange(pos as int, start as int)
                    + run + seq![c]);
                assert(inp@.subrange(pos as int, i + 1) =~= seq!['"'] + escape(out@) + seq!['"']);
                if fits {
                    assert(m == want.len());
                    lemma_escape_whole(want);
                }
            }
            return Some((out, i + 1));
        } else if c == '\\' {
            if i + 1 >= inp.len() {
                proof {
                    if fits {
                        assert(m < want.len());
                    }
                }
                return None;
            }
            let e = inp[i + 1];
            proof {
                if fits {
                    assert(m < want.len());
                    assert(!is_plain(want[m]));
                    assert(inp@[i + 1] == q[i + 1 - pos]);
                    assert(q[i + 1 - pos] == escape_char(want[m])[1]);
                    assert(escape_char(want[m]) =~= seq!['\\', e]);
                }
            }
            match unescape(e) {
                Some(t) => {
                    let ghost ch = choose|ch: char|
                        !is_plain(ch) && escape_char(ch) == seq!['\\', e] && t@ == seq![ch];
                    let ghost o0 = out@;
                    out.append(text.substring_char(start, i));
                    out.append(t);
                    proof {
                        assert(out@ =~= (o0 + run) + seq![ch]);
                        lemma_escape_concat(o0 + run, seq![ch]);
                        assert(seq![ch].drop_last() =~= Seq::<char>::empty());
                        assert(escape(Seq::<char>::empty()) =~= Seq::<char>::empty());
                        assert(seq![ch].last() == ch);
                        assert(escape(seq![ch]) =~= escape_char(ch));
                        assert(inp@.subrange(i as int, i + 2) =~= seq!['\\', e]);
                        assert(inp@.subrange(pos as int, i + 2) =~= inp@.subrange(pos as int, start as int)
                            + run + inp@.subrange(i as int, i + 2));
                        assert(escape(out@) == escape(o0 + run) + escape_char(ch));
                        assert(escape(o0 + run) == escape(o0) + run);
                        assert(inp@.subrange(pos as int, i + 2) =~= seq!['"'] + escape(out@));
                        if fits {
                            assert(ch == want[m]);
                            assert(want.take(m + 1) =~= want.take(m) + seq![want[m]]);
                            assert(out@ + inp@.subrange(i + 2, i + 2) =~= want.take(m + 1));
                            m = m + 1;
                        }
                    }
                    start = i + 2;
                    i = i + 2;
                },
                None => {
                    return None;
                },
            }
        } else if c == '\n' || c == '\r' || c == '\t' {
            return None;
        } else {
            proof {
                if fits {
                    assert(m < want.len());
                    assert(is_plain(want[m]));
                    assert(escape_char(want[m]) =~= seq![want[m]]);
                    assert(want[m] == c);
                    assert(want.take(m + 1) =~= want.take(m) + seq![want[m]]);
                    assert(inp@.subrange(start as int, i + 1) =~= run + seq![c]);
                    assert(out@ + inp@.subrange(start as int, i + 1) =~= want.take(m + 1));
                    m = m + 1;
                }
            }
            i = i + 1;
        }
    }
}

/// Whether `piece` stands in `inp` at position `p`.
pub open spec fn at(inp: Seq<char>, p: int, piece: Seq<char>) -> bool {
    0 <= p && p + piece.len() <= inp.len() && inp.subrange(p, p + piece.len()) == piece
}

broadcast proof fn lemma_at_concat(inp: Seq<char>, p: int, a: Seq<char>, b: Seq<char>)
    ensures
        #[trigger] at(inp, p, a + b) <==> at(inp, p, a) && at(inp, p + a.len(), b),
{
    if at(inp, p, a + b) {
        let w = inp.subrange(p, p + (a + b).len());
        assert(inp.subrange(p, p + a.len()) =~= w.subrange(0, a.len() as int));
        assert(w.subrange(0, a.len() as int) =~= a);
        assert(inp.subrange(p + a.len(), p + a.len() + b.len()) =~= w.subrange(
            a.len() as int,
            w.len() as int,
        ));
        assert(w.subrange(a.len() as int, w.len() as int) =~= b);
    }
    if at(inp, p, a) && at(inp, p + a.len(), b) {
        assert(inp.subrange(p, p + (a + b).len()) =~= inp.subrange(p, p + a.len())
            + inp.subrange(p + a.len(), p + a.len() + b.len()));
        assert(inp.subrange(p, p + (a + b).len()) =~= a + b);
    }
}

/// An optional string on the wire: `null` or a quoted string.
pub open spec fn opt_string_encoding(o: Option<Seq<char>>) -> Seq<char> {
    match o {
        Some(s) => quoted(s),
        None => "null"@,
    }
}

/// An optional number on the wire: `null` or its decimal digits.
pub open spec fn opt_number_encoding(o: Option<u32>) -> Seq<char> {
    match o {
        Some(n) => decimal(n as nat),
        None => "null"@,
    }
}

/// An object with the one field `name`.
pub open spec fn tagged(name: Seq<char>, payload: Seq<char>) -> Seq<char> {
    "{"@ + quoted(name) + ":"@ + payload + "}"@
}

pub open spec fn bool_encoding(b: bool) -> Seq<char> {
    if b {
        "true"@
    } else {
        "false"@
    }
}

pub open spec fn ide_type_encoding(t: IdeType) -> Seq<char> {
    match t {
        IdeType::VSCode(b) => tagged("VSCode"@, bool_encoding(b)),
        IdeType::DeveloperMode => quoted("DeveloperMode"@),
    }
}

/// A field whose value is an optional string.
pub open spec fn string_field(name: Seq<char>, v: Option<Seq<char>>) -> Seq<char> {
    quoted(name) + ":"@ + opt_string_encoding(v)
}

/// A field whose value is an optional number.
pub open spec fn number_field(name: Seq<char>, v: Option<u32>) -> Seq<char> {
    quoted(name) + ":"@ + opt_number_encoding(v)
}

pub open spec fn update_encoding(u: UpdateView) -> Seq<char> {
    "{"@ + string_field("path"@, u.path) + ","@ + string_field("contents"@, u.contents) + ","@
        + number_field("cursor_position"@, u.cursor_position) + ","@ + number_field(
        "scroll_position"@,
        u.scroll_position,
    ) + "}"@
}

/// The payload of contents that carry one.
pub open spec fn payload_encoding(c: ContentsView) -> Seq<char> {
    match c {
        ContentsView::Opened(t) => ide_type_encoding(t),
        ContentsView::ClientHtml(s) => quoted(s),
        ContentsView::Result(s) => quoted(s),
        ContentsView::Update(u) => update_encoding(u),
        ContentsView::Closed => seq![],
    }
}

/// Message contents on the wire: `Closed` is its quoted name; any other is
/// an object whose one field is named after the variant and holds the payload.
pub open spec fn contents_encoding(c: ContentsView) -> Seq<char> {
    match c {
        ContentsView::Closed => quoted("Closed"@),
        _ => tagged(variant_name(c), payload_encoding(c)),
    }
}

/// The field that holds a message's id.
pub open spec fn id_field(id: u64) -> Seq<char> {
    quoted("id"@) + ":"@ + decimal(id as nat)
}

/// The field that holds a message's contents.
pub open spec fn message_field(c: ContentsView) -> Seq<char> {
    quoted("message"@) + ":"@ + contents_encoding(c)
}

/// A message on the wire: `{"id":<id>,"message":<contents>}`, with no
/// white space.
pub open spec fn encoding(m: MessageView) -> Seq<char> {
    "{"@ + id_field(m.id) + ","@ + message_field(m.contents) + "}"@
}

/// The characters of `s`, one by one.
fn chars_of(s: &str) -> (r: Vec<char>)
    ensures
        r@ == s@,
{
    let mut it = s.chars();
    let mut r: Vec<char> = Vec::new();
    loop
        invariant
            r@ + it.remaining() == s@,
            it.decrease() is Some,
        decreases it.decrease()->0,
    {
        match it.next() {
            Some(c) => {
                r.push(c);
            },
            None => {
                assert(r@ + it.remaining() =~= r@);
                return r;
            },
        }
    }
}

/// Appends `s` to `out` as a quoted string.
fn write_quoted(out: &mut String, s: &str)
    ensures
        final(out)@ == old(out)@ + quoted(s@),
{
    let cs = chars_of(s);
    out.append("\"");
    proof {
        reveal_strlit("\"");
        assert(s@.take(0) =~= Seq::<char>::empty());
        assert(out@ =~= old(out)@ + seq!['"'] + escape(s@.take(0)));
    }
    let mut start: usize = 0;
    let mut i: usize = 0;
    while i < cs.len()
        invariant
            cs@ == s@,
            start <= i <= cs@.len(),
            out@ == old(out)@ + seq!['"'] + escape(s@.take(start as int)),
            forall|j: int| start <= j < i ==> is_plain(#[trigger] s@[j]),
        decreases cs@.len() - i,
    {
        let c = cs[i];
        if c == '"' || c == '\\' || c == '\n' || c == '\r' || c == '\t' {
            let ghost before = out@;
            out.append(s.substring_char(start, i));
            let esc = if c == '"' {
                "\\\""
            } else if c == '\\' {
                "\\\\"
            } else if c == '\n' {
                "\\n"
            } else if c == '\r' {
                "\\r"
            } else {
                "\\t"
            };
            proof {
                reveal_strlit("\\\"");
                reveal_strlit("\\\\");
                reveal_strlit("\\n");
                reveal_strlit("\\r");
                reveal_strlit("\\t");
                assert(esc@ =~= escape_char(c));
            }
            out.append(esc);
            proof {
                let run = s@.subrange(start as int, i as int);
                lemma_escape_plain(run);
                lemma_escape_concat(s@.take(start as int), run);
                assert(s@.take(start as int) + run =~= s@.take(i as int));
                assert(s@.take(i as int + 1).drop_last() =~= s@.take(i as int));
                assert(out@ =~= old(out)@ + seq!['"'] + escape(s@.take(i as int + 1)));
            }
            start = i + 1;
        }
        i = i + 1;
    }
    out.append(s.substring_char(start, cs.len()));
    out.append("\"");
    proof {
        reveal_strlit("\"");
        let run = s@.subrange(start as int, cs@.len() as int);
        lemma_escape_plain(run);
        lemma_escape_concat(s@.take(start as int), run);
        assert(s@.take(start as int) + run =~= s@);
        assert(out@ =~= old(out)@ + quoted(s@));
    }
}

fn write_opt_string(out: &mut String, o: &Option<String>)
    ensures
        final(out)@ == old(out)@ + opt_string_encoding(
            match o {
                Some(s) => Some(s@),
                None => None,
            },
        ),
{
    match o {
        Some(s) => write_quoted(out, s.as_str()),
        None => out.append("null"),
    }
}

fn write_opt_number(out: &mut String, o: Option<u32>)
    ensures
        final(out)@ == old(out)@ + opt_number_encoding(o),
{
    match o {
        Some(n) => write_decimal(out, n as u64),
        None => out.append("null"),
    }
}

fn write_field(out: &mut String, name: &str)
    ensures
        final(out)@ == old(out)@ + quoted(name@) + ":"@,
{
    let ghost o = out@;
    write_quoted(out, name);
    out.append(":");
    assert(out@ =~= o + quoted(name@) + ":"@);
}

#[verifier::rlimit(60)]
fn write_update(out: &mut String, u: &UpdateMessageContents)
    ensures
        final(out)@ == old(out)@ + update_encoding(u@),
{
    let ghost o = out@;
    out.append("{");
    write_field(out, "path");
    write_opt_string(out, &u.path);
    let ghost o1 = out@;
    assert(o1 =~= o + "{"@ + string_field("path"@, u@.path));
    out.append(",");
    write_field(out, "contents");
    write_opt_string(out, &u.contents);
    let ghost o2 = out@;
    assert(o2 =~= o1 + ","@ + string_field("contents"@, u@.contents));
    out.append(",");
    write_field(out, "cursor_position");
    write_opt_number(out, u.cursor_position);
    let ghost o3 = out@;
    assert(o3 =~= o2 + ","@ + number_field("cursor_position"@, u@.cursor_position));
    out.append(",");
    write_field(out, "scroll_position");
    write_opt_number(out, u.scroll_position);
    let ghost o4 = out@;
    assert(o4 =~= o3 + ","@ + number_field("scroll_position"@, u@.scroll_position));
    out.append("}");
    assert(out@ =~= o + update_encoding(u@));
}

fn write_ide_type(out: &mut String, t: IdeType)
    ensures
        final(out)@ == old(out)@ + ide_type_encoding(t),
{
    let ghost o = out@;
    match t {
        IdeType::VSCode(b) => {
            out.append("{");
            write_quoted(out, "VSCode");
            out.append(":");
            if b {
                out.append("true");
            } else {
                out.append("false");
            }
            out.append("}");
        },
        IdeType::DeveloperMode => write_quoted(out, "DeveloperMode"),
    }
    assert(out@ =~= o + ide_type_encoding(t));
}

fn write_contents(out: &mut String, c: &EditorMessageContents)
    ensures
        final(out)@ == old(out)@ + contents_encoding(c@),
{
    let ghost o = out@;
    match c {
        EditorMessageContents::Closed => {
            write_quoted(out, "Closed");
        },
        _ => {
            out.append("{");
            write_quoted(out, c.variant_name());
            out.append(":");
            match c {
                EditorMessageContents::Opened(t) => write_ide_type(out, *t),
                EditorMessageContents::ClientHtml(s) => write_quoted(out, s.as_str()),
                EditorMessageContents::Result(s) => write_quoted(out, s.as_str()),
                EditorMessageContents::Update(u) => write_update(out, u),
                EditorMessageContents::Closed => {},
            }
            out.append("}");
        },
    }
    proof {
        reveal_strlit("Opened");
        reveal_strlit("ClientHtml");
        reveal_strlit("Result");
        reveal_strlit("Update");
    }
    assert(out@ =~= o + contents_encoding(c@));
}

/// Writes a message in its wire form.
pub fn encode(m: &EditorMessage) -> (r: String)
    ensures
        r@ == encoding(m@),
{
    let mut out = String::new();
    out.append("{");
    write_quoted(&mut out, "id");
    out.append(":");
    write_decimal(&mut out, m.id);
    out.append(",");
    write_quoted(&mut out, "message");
    out.append(":");
    write_contents(&mut out, &m.message);
    out.append("}");
    assert(out@ =~= encoding(m@));
    out
}

/// Whether `lit` stands in `inp` at `pos`.
fn expect(inp: &Vec<char>, pos: usize, lit: &str) -> (r: bool)
    ensures
        r == at(inp@, pos as int, lit@),
{
    let l = chars_of(lit);
    if l.len() > inp.len() || pos > inp.len() - l.len() {
        return false;
    }
    let mut i: usize = 0;
    while i < l.len()
        invariant
            l@ == lit@,
            pos + l@.len() <= inp@.len(),
            inp@.len() <= usize::MAX,
            i <= l@.len(),
            forall|j: int| 0 <= j < i ==> inp@[pos + j] == l@[j],
        decreases l@.len() - i,
    {
        if inp[pos + i] != l[i] {
            assert(inp@.subrange(pos as int, pos + l@.len())[i as int] != lit@[i as int]);
            return false;
        }
        i = i + 1;
    }
    assert(inp@.subrange(pos as int, pos + l@.len()) =~= lit@);
    true
}

pub open spec fn opt_view(o: Option<String>) -> Option<Seq<char>> {
    match o {
        Some(s) => Some(s@),
        None => None,
    }
}

/// Reads `"name":` at `pos`.
fn parse_field(text: &str, inp: &Vec<char>, pos: usize, name: &str) -> (r: Option<usize>)
    requires
        inp@ == text@,
        pos <= inp@.len(),
    ensures
        r == (if at(inp@, pos as int, quoted(name@) + ":"@) {
            Some((pos + quoted(name@).len() + 1) as usize)
        } else {
            None::<usize>
        }),
{
    broadcast use lemma_at_concat;

    proof {
        reveal_strlit(":");
    }
    match parse_quoted(text, inp, pos, Ghost(name@)) {
        Some((tag, end)) => {
            if tag != name.to_owned() {
                return None;
            }
            let _len = inp.len();
            if expect(inp, end, ":") {
                Some(end + 1)
            } else {
                None
            }
        },
        None => None,
    }
}

fn parse_opt_string(text: &str, inp: &Vec<char>, pos: usize, Ghost(want): Ghost<Option<Seq<char>>>) -> (r: Option<
    (Option<String>, usize),
>)
    requires
        inp@ == text@,
        pos <= inp@.len(),
    ensures
        r matches Some((x, end)) ==> end == pos + opt_string_encoding(opt_view(x)).len() && at(
            inp@,
            pos as int,
            opt_string_encoding(opt_view(x)),
        ),
        at(inp@, pos as int, opt_string_encoding(want)) ==> (r matches Some((x, end)) && opt_view(x)
            == want),
{
    proof {
        reveal_strlit("null");
        if at(inp@, pos as int, opt_string_encoding(want)) {
            assert(inp@[pos as int] == opt_string_encoding(want)[0]);
        }
    }
    let _len = inp.len();
    if expect(inp, pos, "null") {
        proof {
            assert(inp@[pos as int] == "null"@[0]);
        }
        return Some((None, pos + 4));
    }
    let w = Ghost(
        match want {
            Some(s) => s,
            None => Seq::<char>::empty(),
        },
    );
    match parse_quoted(text, inp, pos, w) {
        Some((s, end)) => Some((Some(s), end)),
        None => None,
    }
}

fn parse_opt_number(inp: &Vec<char>, pos: usize, Ghost(want): Ghost<Option<u32>>) -> (r: Option<
    (Option<u32>, usize),
>)
    requires
        pos <= inp@.len(),
    ensures
        r matches Some((x, end)) ==> end == pos + opt_number_encoding(x).len() && at(
            inp@,
            pos as int,
            opt_number_encoding(x),
        ),
        at(inp@, pos as int, opt_number_encoding(want)) && pos + opt_number_encoding(want).len()
            < inp@.len() && !is_digit(inp@[pos + opt_number_encoding(want).len()]) ==> r == Some(
            (want, (pos + opt_number_encoding(want).len()) as usize),
        ),
{
    proof {
        reveal_strlit("null");
        if at(inp@, pos as int, opt_number_encoding(want)) {
            assert(inp@[pos as int] == opt_number_encoding(want)[0]);
            if want is Some {
                lemma_decimal(want->0 as nat);
            }
        }
    }
    let _len = inp.len();
    if expect(inp, pos, "null") {
        proof {
            assert(inp@[pos as int] == "null"@[0]);
        }
        return Some((None, pos + 4));
    }
    let w = Ghost(
        match want {
            Some(n) => n as nat,
            None => 0nat,
        },
    );
    match parse_decimal(inp, pos, 0xffff_ffffu64, w) {
        Some((n, end)) => Some((Some(n as u32), end)),
        None => None,
    }
}

fn parse_string_field(
    text: &str,
    inp: &Vec<char>,
    pos: usize,
    name: &str,
    Ghost(want): Ghost<Option<Seq<char>>>,
) -> (r: Option<(Option<String>, usize)>)
    requires
        inp@ == text@,
        pos <= inp@.len(),
    ensures
        r matches Some((x, end)) ==> end == pos + string_field(name@, opt_view(x)).len() && at(
            inp@,
            pos as int,
            string_field(name@, opt_view(x)),
        ),
        at(inp@, pos as int, string_field(name@, want)) ==> (r matches Some((x, end)) && opt_view(
            x,
        ) == want),
{
    broadcast use lemma_at_concat;

    proof {
        reveal_strlit(":");
    }
    let _len = inp.len();
    let p1 = match parse_field(text, inp, pos, name) {
        Some(e) => e,
        None => {
            return None;
        },
    };
    let r = parse_opt_string(text, inp, p1, Ghost(want));
    proof {
        let head = quoted(name@) + ":"@;
        if r is Some {
            let (x, _) = r->0;
            lemma_at_concat(inp@, pos as int, head, opt_string_encoding(opt_view(x)));
        }
        lemma_at_concat(inp@, pos as int, head, opt_string_encoding(want));
    }
    r
}

fn parse_number_field(
    text: &str,
    inp: &Vec<char>,
    pos: usize,
    name: &str,
    Ghost(want): Ghost<Option<u32>>,
) -> (r: Option<(Option<u32>, usize)>)
    requires
        inp@ == text@,
        pos <= inp@.len(),
    ensures
        r matches Some((x, end)) ==> end == pos + number_field(name@, x).len() && at(
            inp@,
            pos as int,
            number_field(name@, x),
        ),
        at(inp@, pos as int, number_field(name@, want)) && pos + number_field(name@, want).len()
            < inp@.len() && !is_digit(inp@[pos + number_field(name@, want).len()]) ==> r == Some(
            (want, (pos + number_field(name@, want).len()) as usize),
        ),
{
    broadcast use lemma_at_concat;

    proof {
        reveal_strlit(":");
    }
    let _len = inp.len();
    let p1 = match parse_field(text, inp, pos, name) {
        Some(e) => e,
        None => {
            return None;
        },
    };
    let r = parse_opt_number(inp, p1, Ghost(want));
    proof {
        let head = quoted(name@) + ":"@;
        if r is Some {
            let (x, _) = r->0;
            lemma_at_concat(inp@, pos as int, head, opt_number_encoding(x));
        }
        lemma_at_concat(inp@, pos as int, head, opt_number_encoding(want));
    }
    r
}

/// The character at `p` of `inp` where `lit` stands there.
proof fn lemma_at_first(inp: Seq<char>, p: int, lit: Seq<char>)
    requires
        at(inp, p, lit),
        lit.len() > 0,
    ensures
        p < inp.len(),
        inp[p] == lit[0],
{
    assert(inp[p] == inp.subrange(p, p + lit.len())[0]);
}

#[verifier::rlimit(60)]
fn parse_update(text: &str, inp: &Vec<char>, pos: usize, Ghost(want): Ghost<UpdateView>) -> (r: Option<
    (UpdateMessageContents, usize),
>)
    requires
        inp@ == text@,
        pos <= inp@.len(),
    ensures
        r matches Some((u, end)) ==> end == pos + update_encoding(u@).len() && at(
            inp@,
            pos as int,
            update_encoding(u@),
        ),
        at(inp@, pos as int, update_encoding(want)) ==> (r matches Some((u, end)) && u@ == want),
{
    broadcast use lemma_at_concat;

    proof {
        reveal_strlit("{");
        reveal_strlit("}");
        reveal_strlit(",");
    }
    let ghost fits = at(inp@, pos as int, update_encoding(want));
    let _len = inp.len();
    if !expect(inp, pos, "{") {
        return None;
    }
    let (path, p2) = match parse_string_field(text, inp, pos + 1, "path", Ghost(want.path)) {
        Some(x) => x,
        None => {
            return None;
        },
    };
    if !expect(inp, p2, ",") {
        return None;
    }
    let (contents, p4) = match parse_string_field(
        text,
        inp,
        p2 + 1,
        "contents",
        Ghost(want.contents),
    ) {
        Some(x) => x,
        None => {
            return None;
        },
    };
    if !expect(inp, p4, ",") {
        return None;
    }
    proof {
        if fits {
            lemma_at_first(
                inp@,
                p4 + 1 + number_field("cursor_position"@, want.cursor_position).len(),
                ","@,
            );
        }
    }
    let (cursor_position, p6) = match parse_number_field(
        text,
        inp,
        p4 + 1,
        "cursor_position",
        Ghost(want.cursor_position),
    ) {
        Some(x) => x,
        None => {
            return None;
        },
    };
    if !expect(inp, p6, ",") {
        return None;
    }
    proof {
        if fits {
            lemma_at_first(
                inp@,
                p6 + 1 + number_field("scroll_position"@, want.scroll_position).len(),
                "}"@,
            );
        }
    }
    let (scroll_position, p8) = match parse_number_field(
        text,
        inp,
        p6 + 1,
        "scroll_position",
        Ghost(want.scroll_position),
    ) {
        Some(x) => x,
        None => {
            return None;
        },
    };
    if !expect(inp, p8, "}") {
        return None;
    }
    let u = UpdateMessageContents { path, contents, cursor_position, scroll_position };
    Some((u, p8 + 1))
}

/// Whether `tag` is `name`.
fn is_name(tag: &String, name: &str) -> (r: bool)
    ensures
        r == (tag@ == name@),
{
    *tag == name.to_owned()
}

/// Reads `{"tag":` at `pos`; `want` is the tag expected.
fn parse_tag_head(text: &str, inp: &Vec<char>, pos: usize, Ghost(want): Ghost<Seq<char>>) -> (r: Option<
    (String, usize),
>)
    requires
        inp@ == text@,
        pos <= inp@.len(),
    ensures
        r matches Some((t, end)) ==> end == pos + ("{"@ + quoted(t@) + ":"@).len() && at(
            inp@,
            pos as int,
            "{"@ + quoted(t@) + ":"@,
        ),
        at(inp@, pos as int, "{"@ + quoted(want) + ":"@) ==> (r matches Some((t, end)) && t@ == want),
{
    broadcast use lemma_at_concat;

    proof {
        reveal_strlit("{");
        reveal_strlit(":");
    }
    let _len = inp.len();
    if !expect(inp, pos, "{") {
        return None;
    }
    let (t, p1) = match parse_quoted(text, inp, pos + 1, Ghost(want)) {
        Some(x) => x,
        None => {
            return None;
        },
    };
    if !expect(inp, p1, ":") {
        return None;
    }
    Some((t, p1 + 1))
}

#[verifier::rlimit(40)]
fn parse_ide_type(text: &str, inp: &Vec<char>, pos: usize, Ghost(want): Ghost<IdeType>) -> (r: Option<
    (IdeType, usize),
>)
    requires
        inp@ == text@,
        pos <= inp@.len(),
    ensures
        r matches Some((t, end)) ==> end == pos + ide_type_encoding(t).len() && at(
            inp@,
            pos as int,
            ide_type_encoding(t),
        ),
        at(inp@, pos as int, ide_type_encoding(want)) ==> (r matches Some((t, end)) && t == want),
{
    broadcast use lemma_at_concat;

    proof {
        reveal_strlit("{");
        reveal_strlit("}");
        reveal_strlit("true");
        reveal_strlit("false");
        reveal_strlit("VSCode");
        reveal_strlit("DeveloperMode");
    }
    let ghost fits = at(inp@, pos as int, ide_type_encoding(want));
    proof {
        if fits {
            lemma_at_first(inp@, pos as int, ide_type_encoding(want));
        }
    }
    let _len = inp.len();
    if pos < inp.len() && inp[pos] == '"' {
        return match parse_quoted(text, inp, pos, Ghost("DeveloperMode"@)) {
            Some((t, end)) => {
                if is_name(&t, "DeveloperMode") {
                    Some((IdeType::DeveloperMode, end))
                } else {
                    None
                }
            },
            None => None,
        };
    }
    let (tag, p1) = match parse_tag_head(text, inp, pos, Ghost("VSCode"@)) {
        Some(x) => x,
        None => {
            return None;
        },
    };
    if !is_name(&tag, "VSCode") {
        return None;
    }
    let ghost wb = match want {
        IdeType::VSCode(b) => b,
        IdeType::DeveloperMode => false,
    };
    proof {
        if fits {
            lemma_at_first(inp@, p1 as int, bool_encoding(wb));
        }
    }
    let (b, p2) = if expect(inp, p1, "true") {
        proof {
            lemma_at_first(inp@, p1 as int, "true"@);
        }
        (true, p1 + 4)
    } else if expect(inp, p1, "false") {
        proof {
            lemma_at_first(inp@, p1 as int, "false"@);
        }
        (false, p1 + 5)
    } else {
        return None;
    };
    if !expect(inp, p2, "}") {
        return None;
    }
    Some((IdeType::VSCode(b), p2 + 1))
}

/// Reads the payload of the variant named `tag` at `pos`.
#[verifier::rlimit(40)]
fn parse_payload(
    text: &str,
    inp: &Vec<char>,
    pos: usize,
    tag: &String,
    Ghost(want): Ghost<ContentsView>,
) -> (r: Option<(EditorMessageContents, usize)>)
    requires
        inp@ == text@,
        pos <= inp@.len(),
    ensures
        r matches Some((c, end)) ==> !(c@ is Closed) && variant_name(c@) == tag@ && end == pos
            + payload_encoding(c@).len() && at(inp@, pos as int, payload_encoding(c@)),
        !(want is Closed) && variant_name(want) == tag@ && at(
            inp@,
            pos as int,
            payload_encoding(want),
        ) ==> (r matches Some((c, end)) && c@ == want),
{
    proof {
        reveal_strlit("Opened");
        reveal_strlit("ClientHtml");
        reveal_strlit("Result");
        reveal_strlit("Update");
        assert("Opened"@[0] == 'O' && "Result"@[0] == 'R' && "Update"@[0] == 'U');
    }
    if is_name(tag, "Opened") {
        let w = Ghost(
            match want {
                ContentsView::Opened(t) => t,
                _ => IdeType::DeveloperMode,
            },
        );
        match parse_ide_type(text, inp, pos, w) {
            Some((t, e)) => Some((EditorMessageContents::Opened(t), e)),
            None => None,
        }
    } else if is_name(tag, "ClientHtml") {
        let w = Ghost(
            match want {
                ContentsView::ClientHtml(s) => s,
                _ => Seq::<char>::empty(),
            },
        );
        match parse_quoted(text, inp, pos, w) {
            Some((s, e)) => Some((EditorMessageContents::ClientHtml(s), e)),
            None => None,
        }
    } else if is_name(tag, "Result") {
        let w = Ghost(
            match want {
                ContentsView::Result(s) => s,
                _ => Seq::<char>::empty(),
            },
        );
        match parse_quoted(text, inp, pos, w) {
            Some((s, e)) => Some((EditorMessageContents::Result(s), e)),
            None => None,
        }
    } else if is_name(tag, "Update") {
        let w = Ghost(
            match want {
                ContentsView::Update(u) => u,
                _ => UpdateView {
                    path: None,
                    contents: None,
                    cursor_position: None,
                    scroll_position: None,
                },
            },
        );
        match parse_update(text, inp, pos, w) {
            Some((u, e)) => Some((EditorMessageContents::Update(u), e)),
            None => None,
        }
    } else {
        None
    }
}

#[verifier::rlimit(40)]
fn parse_contents(text: &str, inp: &Vec<char>, pos: usize, Ghost(want): Ghost<ContentsView>) -> (r: Option<
    (EditorMessageContents, usize),
>)
    requires
        inp@ == text@,
        pos <= inp@.len(),
    ensures
        r matches Some((c, end)) ==> end == pos + contents_encoding(c@).len() && at(
            inp@,
            pos as int,
            contents_encoding(c@),
        ),
        at(inp@, pos as int, contents_encoding(want)) ==> (r matches Some((c, end)) && c@ == want),
{
    broadcast use lemma_at_concat;

    proof {
        reveal_strlit("{");
        reveal_strlit("}");
        reveal_strlit("Closed");
    }
    let ghost fits = at(inp@, pos as int, contents_encoding(want));
    proof {
        if fits {
            lemma_at_first(inp@, pos as int, contents_encoding(want));
        }
    }
    let _len = inp.len();
    if pos < inp.len() && inp[pos] == '"' {
        return match parse_quoted(text, inp, pos, Ghost("Closed"@)) {
            Some((t, end)) => {
                if is_name(&t, "Closed") {
                    Some((EditorMessageContents::Closed, end))
                } else {
                    None
                }
            },
            None => None,
        };
    }
    let (tag, p1) = match parse_tag_head(text, inp, pos, Ghost(variant_name(want))) {
        Some(x) => x,
        None => {
            return None;
        },
    };
    let (c, p2) = match parse_payload(text, inp, p1, &tag, Ghost(want)) {
        Some(x) => x,
        None => {
            return None;
        },
    };
    if !expect(inp, p2, "}") {
        return None;
    }
    Some((c, p2 + 1))
}

fn parse_id_field(text: &str, inp: &Vec<char>, pos: usize, Ghost(want): Ghost<u64>) -> (r: Option<
    (u64, usize),
>)
    requires
        inp@ == text@,
        pos <= inp@.len(),
    ensures
        r matches Some((x, end)) ==> end == pos + id_field(x).len() && at(
            inp@,
            pos as int,
            id_field(x),
        ),
        at(inp@, pos as int, id_field(want)) && pos + id_field(want).len() < inp@.len() && !is_digit(
            inp@[pos + id_field(want).len()],
        ) ==> r == Some((want, (pos + id_field(want).len()) as usize)),
{
    broadcast use lemma_at_concat;

    proof {
        reveal_strlit(":");
    }
    let _len = inp.len();
    let p1 = match parse_field(text, inp, pos, "id") {
        Some(e) => e,
        None => {
            return None;
        },
    };
    let r = parse_decimal(inp, p1, 0xffff_ffff_ffff_ffffu64, Ghost(want as nat));
    proof {
        let head = quoted("id"@) + ":"@;
        if r is Some {
            let (x, _) = r->0;
            lemma_at_concat(inp@, pos as int, head, decimal(x as nat));
        }
        lemma_at_concat(inp@, pos as int, head, decimal(want as nat));
    }
    r
}

fn parse_message_field(text: &str, inp: &Vec<char>, pos: usize, Ghost(want): Ghost<ContentsView>) -> (r: Option<
    (EditorMessageContents, usize),
>)
    requires
        inp@ == text@,
        pos <= inp@.len(),
    ensures
        r matches Some((c, end)) ==> end == pos + message_field(c@).len() && at(
            inp@,
            pos as int,
            message_field(c@),
        ),
        at(inp@, pos as int, message_field(want)) ==> (r matches Some((c, end)) && c@ == want),
{
    broadcast use lemma_at_concat;

    proof {
        reveal_strlit(":");
    }
    let _len = inp.len();
    let p1 = match parse_field(text, inp, pos, "message") {
        Some(e) => e,
        None => {
            return None;
        },
    };
    let r = parse_contents(text, inp, p1, Ghost(want));
    proof {
        let head = quoted("message"@) + ":"@;
        if r is Some {
            let (c, _) = r->0;
            lemma_at_concat(inp@, pos as int, head, contents_encoding(c@));
        }
        lemma_at_concat(inp@, pos as int, head, contents_encoding(want));
    }
    r
}

/// Splits `encoding(m)` at `p` into its pieces.
proof fn lemma_at_encoding(inp: Seq<char>, p: int, m: MessageView)
    ensures
        at(inp, p, encoding(m)) <==> at(inp, p, "{"@) && at(inp, p + 1, id_field(m.id)) && at(
            inp,
            p + 1 + id_field(m.id).len(),
            ","@,
        ) && at(inp, p + 2 + id_field(m.id).len(), message_field(m.contents)) && at(
            inp,
            p + 2 + id_field(m.id).len() + message_field(m.contents).len(),
            "}"@,
        ),
{
    reveal_strlit("{");
    reveal_strlit(",");
    let a = "{"@;
    let b = a + id_field(m.id);
    let c = b + ","@;
    let d = c + message_field(m.contents);
    lemma_at_concat(inp, p, d, "}"@);
    lemma_at_concat(inp, p, c, message_field(m.contents));
    lemma_at_concat(inp, p, b, ","@);
    lemma_at_concat(inp, p, a, id_field(m.id));
}

/// Reads a message from its wire form: the message whose wire form is
/// `text`, or `None` where no message has that form.
pub fn decode(text: &str) -> (r: Option<EditorMessage>)
    ensures
        r matches Some(x) ==> encoding(x@) == text@,
        forall|m: MessageView| encoding(m) == text@ ==> (r matches Some(x) && x@ == m),
{
    proof {
        reveal_strlit("{");
        reveal_strlit("}");
        reveal_strlit(",");
    }
    let inp = chars_of(text);
    let _len = inp.len();
    let ghost want = choose|m: MessageView| encoding(m) == text@;
    let ghost fits = encoding(want) == text@;
    proof {
        lemma_at_encoding(inp@, 0, want);
        if fits {
            assert(inp@.subrange(0, inp@.len() as int) =~= inp@);
            assert(at(inp@, 0, encoding(want)));
            lemma_at_first(inp@, 1 + id_field(want.id).len() as int, ","@);
        }
    }
    if !expect(&inp, 0, "{") {
        return None;
    }
    let (id, p2) = match parse_id_field(text, &inp, 1, Ghost(want.id)) {
        Some(x) => x,
        None => {
            return None;
        },
    };
    if !expect(&inp, p2, ",") {
        return None;
    }
    let (message, p4) = match parse_message_field(text, &inp, p2 + 1, Ghost(want.contents)) {
        Some(x) => x,
        None => {
            return None;
        },
    };
    if !expect(&inp, p4, "}") || p4 + 1 != inp.len() {
        return None;
    }
    let m = EditorMessage { id, message };
    proof {
        lemma_at_encoding(inp@, 0, m@);
        assert(inp@.subrange(0, inp@.len() as int) =~= inp@);
        assert forall|w: MessageView| encoding(w) == text@ implies w == m@ by {
            lemma_encoding_injective(w, m@);
        }
    }
    Some(m)
}

proof fn lemma_escape_front(s: Seq<char>)
    requires
        s.len() > 0,
    ensures
        escape(s) == escape_char(s[0]) + escape(s.drop_first()),
{
    lemma_escape_concat(seq![s[0]], s.drop_first());
    assert(seq![s[0]] + s.drop_first() =~= s);
    assert(seq![s[0]].drop_last() =~= Seq::<char>::empty());
    assert(escape(Seq::<char>::empty()) =~= Seq::<char>::empty());
    assert(escape(seq![s[0]]) =~= escape_char(s[0]));
}

/// Two escaped bodies, each closed by a quote, that stand at one place are
/// the same string.
proof fn lemma_escaped_unique(inp: Seq<char>, p: int, a: Seq<char>, b: Seq<char>)
    requires
        at(inp, p, escape(a) + seq!['"']),
        at(inp, p, escape(b) + seq!['"']),
    ensures
        a == b,
    decreases a.len(),
{
    if a.len() == 0 {
        assert(escape(a) =~= Seq::<char>::empty());
        lemma_at_first(inp, p, escape(a) + seq!['"']);
        if b.len() > 0 {
            lemma_escape_front(b);
            lemma_at_first(inp, p, escape(b) + seq!['"']);
            assert((escape(b) + seq!['"'])[0] == escape_char(b[0])[0]);
        } else {
            assert(b =~= a);
        }
    } else if b.len() == 0 {
        lemma_escaped_unique(inp, p, b, a);
    } else {
        lemma_escape_front(a);
        lemma_escape_front(b);
        let ea = escape_char(a[0]);
        let eb = escape_char(b[0]);
        let ra = escape(a.drop_first()) + seq!['"'];
        let rb = escape(b.drop_first()) + seq!['"'];
        assert(escape(a) + seq!['"'] =~= ea + ra);
        assert(escape(b) + seq!['"'] =~= eb + rb);
        lemma_at_concat(inp, p, ea, ra);
        lemma_at_concat(inp, p, eb, rb);
        lemma_at_first(inp, p, ea);
        lemma_at_first(inp, p, eb);
        if ea[0] == '\\' {
            assert(inp[p + 1] == inp.subrange(p, p + 2)[1]);
            assert(ea[1] == eb[1]);
            assert(a[0] == b[0]);
        } else {
            assert(a[0] == b[0]);
        }
        lemma_escaped_unique(inp, p + ea.len(), a.drop_first(), b.drop_first());
        assert(a =~= seq![a[0]] + a.drop_first());
        assert(b =~= seq![b[0]] + b.drop_first());
    }
}

proof fn lemma_quoted_unique(inp: Seq<char>, p: int, a: Seq<char>, b: Seq<char>)
    requires
        at(inp, p, quoted(a)),
        at(inp, p, quoted(b)),
    ensures
        a == b,
{
    assert(quoted(a) =~= seq!['"'] + (escape(a) + seq!['"']));
    assert(quoted(b) =~= seq!['"'] + (escape(b) + seq!['"']));
    lemma_at_concat(inp, p, seq!['"'], escape(a) + seq!['"']);
    lemma_at_concat(inp, p, seq!['"'], escape(b) + seq!['"']);
    lemma_escaped_unique(inp, p + 1, a, b);
}

/// Two numbers that stand at one place, each followed by something other
/// than a digit, are the same.
proof fn lemma_decimal_unique(inp: Seq<char>, p: int, a: nat, b: nat)
    requires
        at(inp, p, decimal(a)),
        at(inp, p, decimal(b)),
        p + decimal(a).len() < inp.len() && !is_digit(inp[p + decimal(a).len()]),
        p + decimal(b).len() < inp.len() && !is_digit(inp[p + decimal(b).len()]),
    ensures
        a == b,
{
    lemma_decimal(a);
    lemma_decimal(b);
    let la = decimal(a).len() as int;
    let lb = decimal(b).len() as int;
    if la < lb {
        assert(inp[p + la] == inp.subrange(p, p + lb)[la]);
    } else if lb < la {
        assert(inp[p + lb] == inp.subrange(p, p + la)[lb]);
    } else {
        assert(decimal(a) == decimal(b));
    }
}

proof fn lemma_opt_string_unique(inp: Seq<char>, p: int, a: Option<Seq<char>>, b: Option<Seq<char>>)
    requires
        at(inp, p, opt_string_encoding(a)),
        at(inp, p, opt_string_encoding(b)),
    ensures
        a == b,
{
    reveal_strlit("null");
    lemma_at_first(inp, p, opt_string_encoding(a));
    lemma_at_first(inp, p, opt_string_encoding(b));
    if a is Some && b is Some {
        lemma_quoted_unique(inp, p, a->0, b->0);
    }
}

proof fn lemma_opt_number_unique(inp: Seq<char>, p: int, a: Option<u32>, b: Option<u32>)
    requires
        at(inp, p, opt_number_encoding(a)),
        at(inp, p, opt_number_encoding(b)),
        p + opt_number_encoding(a).len() < inp.len() && !is_digit(
            inp[p + opt_number_encoding(a).len()],
        ),
        p + opt_number_encoding(b).len() < inp.len() && !is_digit(
            inp[p + opt_number_encoding(b).len()],
        ),
    ensures
        a == b,
{
    reveal_strlit("null");
    lemma_at_first(inp, p, opt_number_encoding(a));
    lemma_at_first(inp, p, opt_number_encoding(b));
    if a is Some {
        lemma_decimal(a->0 as nat);
    }
    if b is Some {
        lemma_decimal(b->0 as nat);
    }
    if a is Some && b is Some {
        lemma_decimal_unique(inp, p, a->0 as nat, b->0 as nat);
    }
}

proof fn lemma_ide_type_unique(inp: Seq<char>, p: int, a: IdeType, b: IdeType)
    requires
        at(inp, p, ide_type_encoding(a)),
        at(inp, p, ide_type_encoding(b)),
    ensures
        a == b,
{
    broadcast use lemma_at_concat;

    reveal_strlit("{");
    reveal_strlit("true");
    reveal_strlit("false");
    lemma_at_first(inp, p, ide_type_encoding(a));
    lemma_at_first(inp, p, ide_type_encoding(b));
    if a is VSCode && b is VSCode {
        let head = "{"@ + quoted("VSCode"@) + ":"@;
        lemma_at_first(inp, p + head.len(), bool_encoding(a->0));
        lemma_at_first(inp, p + head.len(), bool_encoding(b->0));
    }
}

proof fn lemma_at_update(inp: Seq<char>, p: int, u: UpdateView)
    requires
        at(inp, p, update_encoding(u)),
    ensures
        ({
            let l1 = string_field("path"@, u.path).len();
            let l2 = string_field("contents"@, u.contents).len();
            let l3 = number_field("cursor_position"@, u.cursor_position).len();
            let l4 = number_field("scroll_position"@, u.scroll_position).len();
            &&& at(inp, p + 1, string_field("path"@, u.path))
            &&& at(inp, p + 2 + l1, string_field("contents"@, u.contents))
            &&& at(inp, p + 3 + l1 + l2, number_field("cursor_position"@, u.cursor_position))
            &&& at(inp, p + 3 + l1 + l2 + l3, ","@)
            &&& at(inp, p + 4 + l1 + l2 + l3, number_field("scroll_position"@, u.scroll_position))
            &&& at(inp, p + 4 + l1 + l2 + l3 + l4, "}"@)
        }),
{
    reveal_strlit("{");
    reveal_strlit(",");
    let a = "{"@ + string_field("path"@, u.path);
    let b = a + ","@ + string_field("contents"@, u.contents);
    let c = b + ","@ + number_field("cursor_position"@, u.cursor_position);
    let d = c + ","@ + number_field("scroll_position"@, u.scroll_position);
    lemma_at_concat(inp, p, d, "}"@);
    lemma_at_concat(inp, p, c + ","@, number_field("scroll_position"@, u.scroll_position));
    lemma_at_concat(inp, p, c, ","@);
    lemma_at_concat(inp, p, b + ","@, number_field("cursor_position"@, u.cursor_position));
    lemma_at_concat(inp, p, b, ","@);
    lemma_at_concat(inp, p, a + ","@, string_field("contents"@, u.contents));
    lemma_at_concat(inp, p, a, ","@);
    lemma_at_concat(inp, p, "{"@, string_field("path"@, u.path));
}

/// Where a field stands, its value stands after its name and colon.
proof fn lemma_at_field_value(inp: Seq<char>, p: int, name: Seq<char>, v: Seq<char>)
    requires
        at(inp, p, quoted(name) + ":"@ + v),
    ensures
        at(inp, p + quoted(name).len() + 1, v),
{
    reveal_strlit(":");
    lemma_at_concat(inp, p, quoted(name) + ":"@, v);
}

proof fn lemma_update_unique(inp: Seq<char>, p: int, a: UpdateView, b: UpdateView)
    requires
        at(inp, p, update_encoding(a)),
        at(inp, p, update_encoding(b)),
    ensures
        a == b,
{
    reveal_strlit(",");
    reveal_strlit("}");
    reveal_strlit(":");
    lemma_at_update(inp, p, a);
    lemma_at_update(inp, p, b);
    let hp = quoted("path"@).len() + 1;
    lemma_at_field_value(inp, p + 1, "path"@, opt_string_encoding(a.path));
    lemma_at_field_value(inp, p + 1, "path"@, opt_string_encoding(b.path));
    lemma_opt_string_unique(inp, p + 1 + hp, a.path, b.path);
    let l1 = string_field("path"@, a.path).len();
    lemma_at_field_value(inp, p + 2 + l1, "contents"@, opt_string_encoding(a.contents));
    lemma_at_field_value(inp, p + 2 + l1, "contents"@, opt_string_encoding(b.contents));
    lemma_opt_string_unique(
        inp,
        p + 2 + l1 + quoted("contents"@).len() + 1,
        a.contents,
        b.contents,
    );
    let l2 = string_field("contents"@, a.contents).len();
    let q3 = p + 3 + l1 + l2;
    let v3 = q3 + quoted("cursor_position"@).len() + 1;
    lemma_at_field_value(inp, q3, "cursor_position"@, opt_number_encoding(a.cursor_position));
    lemma_at_field_value(inp, q3, "cursor_position"@, opt_number_encoding(b.cursor_position));
    lemma_at_first(inp, v3 + opt_number_encoding(a.cursor_position).len(), ","@);
    lemma_at_first(inp, v3 + opt_number_encoding(b.cursor_position).len(), ","@);
    lemma_opt_number_unique(inp, v3, a.cursor_position, b.cursor_position);
    let l3 = number_field("cursor_position"@, a.cursor_position).len();
    let q4 = p + 4 + l1 + l2 + l3;
    let v4 = q4 + quoted("scroll_position"@).len() + 1;
    lemma_at_field_value(inp, q4, "scroll_position"@, opt_number_encoding(a.scroll_position));
    lemma_at_field_value(inp, q4, "scroll_position"@, opt_number_encoding(b.scroll_position));
    lemma_at_first(inp, v4 + opt_number_encoding(a.scroll_position).len(), "}"@);
    lemma_at_first(inp, v4 + opt_number_encoding(b.scroll_position).len(), "}"@);
    lemma_opt_number_unique(inp, v4, a.scroll_position, b.scroll_position);
}

proof fn lemma_at_tagged(inp: Seq<char>, p: int, name: Seq<char>, payload: Seq<char>)
    requires
        at(inp, p, tagged(name, payload)),
    ensures
        at(inp, p + 1, quoted(name)),
        at(inp, p + 1 + quoted(name).len() + 1, payload),
{
    reveal_strlit("{");
    reveal_strlit(":");
    let a = "{"@ + quoted(name);
    lemma_at_concat(inp, p, a + ":"@ + payload, "}"@);
    lemma_at_concat(inp, p, a + ":"@, payload);
    lemma_at_concat(inp, p, a, ":"@);
    lemma_at_concat(inp, p, "{"@, quoted(name));
}

proof fn lemma_contents_unique(inp: Seq<char>, p: int, a: ContentsView, b: ContentsView)
    requires
        at(inp, p, contents_encoding(a)),
        at(inp, p, contents_encoding(b)),
    ensures
        a == b,
{
    reveal_strlit("{");
    reveal_strlit("Opened");
    reveal_strlit("ClientHtml");
    reveal_strlit("Result");
    reveal_strlit("Update");
    assert("Opened"@[0] == 'O' && "Result"@[0] == 'R' && "Update"@[0] == 'U');
    lemma_at_first(inp, p, contents_encoding(a));
    lemma_at_first(inp, p, contents_encoding(b));
    if !(a is Closed) && !(b is Closed) {
        lemma_at_tagged(inp, p, variant_name(a), payload_encoding(a));
        lemma_at_tagged(inp, p, variant_name(b), payload_encoding(b));
        lemma_quoted_unique(inp, p + 1, variant_name(a), variant_name(b));
        let q: int = p + 1 + quoted(variant_name(a)).len() + 1;
        match a {
            ContentsView::Opened(x) => {
                lemma_ide_type_unique(inp, q, x, b->Opened_0);
            },
            ContentsView::ClientHtml(x) => {
                lemma_quoted_unique(inp, q, x, b->ClientHtml_0);
            },
            ContentsView::Result(x) => {
                lemma_quoted_unique(inp, q, x, b->Result_0);
            },
            ContentsView::Update(x) => {
                lemma_update_unique(inp, q, x, b->Update_0);
            },
            ContentsView::Closed => {},
        }
    }
}

proof fn lemma_message_unique(inp: Seq<char>, a: MessageView, b: MessageView)
    requires
        at(inp, 0, encoding(a)),
        at(inp, 0, encoding(b)),
    ensures
        a == b,
{
    reveal_strlit(":");
    reveal_strlit(",");
    lemma_at_encoding(inp, 0, a);
    lemma_at_encoding(inp, 0, b);
    let h = quoted("id"@).len() as int + 1;
    lemma_at_field_value(inp, 1, "id"@, decimal(a.id as nat));
    lemma_at_field_value(inp, 1, "id"@, decimal(b.id as nat));
    lemma_at_first(inp, 1 + id_field(a.id).len() as int, ","@);
    lemma_at_first(inp, 1 + id_field(b.id).len() as int, ","@);
    lemma_decimal_unique(inp, 1 + h, a.id as nat, b.id as nat);
    let q = 2 + id_field(a.id).len() as int;
    lemma_at_field_value(inp, q, "message"@, contents_encoding(a.contents));
    lemma_at_field_value(inp, q, "message"@, contents_encoding(b.contents));
    lemma_contents_unique(inp, q + quoted("message"@).len() + 1, a.contents, b.contents);
}

/// No two messages have the same wire form, so decoding the wire form of a
/// message gives that message back.
pub proof fn lemma_encoding_injective(a: MessageView, b: MessageView)
    requires
        encoding(a) == encoding(b),
    ensures
        a == b,
{
    let inp = encoding(a);
    assert(inp.subrange(0, inp.len() as int) =~= inp);
    lemma_message_unique(inp, a, b);
}

} // verus!
