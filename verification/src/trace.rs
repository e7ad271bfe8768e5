//! Traces and their wire form.
//!
//! A trace is the ordered list of steps one explored schedule took: for
//! each step the chosen task's id, the task's name and the name of the
//! operation it entered.  The wire form renders each step as
//! `id:task.op` and joins steps with `,`; the empty string denotes the
//! empty trace.  Parsing is the exact inverse of rendering as long as the
//! names stay clear of the separators a reader cannot re-divide.

use vstd::prelude::*;
use vstd::string::StrSliceExecFns;

verus! {

/// One step of a trace.
pub struct TraceStep {
    pub task_id: usize,
    pub task_name: String,
    pub op_name: String,
}

impl Clone for TraceStep {
    fn clone(&self) -> (res: Self)
        ensures
            res == *self,
    {
        TraceStep {
            task_id: self.task_id,
            task_name: self.task_name.clone(),
            op_name: self.op_name.clone(),
        }
    }
}

impl View for TraceStep {
    type V = (nat, Seq<char>, Seq<char>);

    open spec fn view(&self) -> (nat, Seq<char>, Seq<char>) {
        (self.task_id as nat, self.task_name@, self.op_name@)
    }
}

/// The steps taken in one iteration, in order.
pub struct Trace {
    steps: Vec<TraceStep>,
}

impl View for Trace {
    type V = Seq<(nat, Seq<char>, Seq<char>)>;

    closed spec fn view(&self) -> Seq<(nat, Seq<char>, Seq<char>)> {
        self.steps@.map_values(|s: TraceStep| s@)
    }
}

/// The wire form could not be divided into `id:task.op` steps.
#[derive(Debug, PartialEq, Eq, Structural)]
pub struct ParseTraceError;

/// The decimal digit character for a value below ten.
pub open spec fn spec_digit_char(d: nat) -> char {
    if d == 0 {
        '0'
    } else if d == 1 {
        '1'
    } else if d == 2 {
        '2'
    } else if d == 3 {
        '3'
    } else if d == 4 {
        '4'
    } else if d == 5 {
        '5'
    } else if d == 6 {
        '6'
    } else if d == 7 {
        '7'
    } else if d == 8 {
        '8'
    } else {
        '9'
    }
}

/// The value of a decimal digit character; ten marks a non-digit.
pub open spec fn spec_char_digit(c: char) -> nat {
    if c == '0' {
        0
    } else if c == '1' {
        1
    } else if c == '2' {
        2
    } else if c == '3' {
        3
    } else if c == '4' {
        4
    } else if c == '5' {
        5
    } else if c == '6' {
        6
    } else if c == '7' {
        7
    } else if c == '8' {
        8
    } else if c == '9' {
        9
    } else {
        10
    }
}

/// Whether a character is a decimal digit.
pub open spec fn spec_is_digit(c: char) -> bool {
    spec_char_digit(c) < 10
}

/// The canonical decimal rendering of a number: no sign, no leading zero
/// except for zero itself.
pub open spec fn spec_digits(n: nat) -> Seq<char>
    decreases n,
{
    if n < 10 {
        seq![spec_digit_char(n)]
    } else {
        spec_digits(n / 10).push(spec_digit_char(n % 10))
    }
}

/// The value of a digit string read left to right, `None` on a non-digit
/// or when the value leaves the machine range.
pub open spec fn spec_digits_val_checked(s: Seq<char>) -> Option<nat>
    decreases s.len(),
{
    if s.len() == 0 {
        Some(0)
    } else {
        match spec_digits_val_checked(s.drop_last()) {
            Option::None => Option::None,
            Option::Some(v) => if !spec_is_digit(s.last()) {
                Option::None
            } else if v * 10 + spec_char_digit(s.last()) > usize::MAX {
                Option::None
            } else {
                Option::Some(v * 10 + spec_char_digit(s.last()))
            },
        }
    }
}

/// The canonical rendering is non-empty and consists of digits only.
proof fn lemma_digits_are_digits(n: nat)
    ensures
        spec_digits(n).len() >= 1,
        forall|i: int| 0 <= i < spec_digits(n).len() ==> spec_is_digit(#[trigger] spec_digits(n)[i]),
    decreases n,
{
    if n < 10 {
        assert(spec_is_digit(spec_digit_char(n)));
    } else {
        lemma_digits_are_digits(n / 10);
        assert(spec_is_digit(spec_digit_char(n % 10)));
        assert forall|i: int| 0 <= i < spec_digits(n).len() implies spec_is_digit(
            #[trigger] spec_digits(n)[i],
        ) by {
            if i < spec_digits(n / 10).len() {
                assert(spec_digits(n)[i] == spec_digits(n / 10)[i]);
            } else {
                assert(spec_digits(n)[i] == spec_digit_char(n % 10));
            }
        }
    }
}

/// Checked reading of the canonical rendering succeeds for any machine
/// sized value.
proof fn lemma_digits_val_checked_roundtrip(n: nat)
    requires
        n <= usize::MAX,
    ensures
        spec_digits_val_checked(spec_digits(n)) == Some(n),
    decreases n,
{
    let s = spec_digits(n);
    if n < 10 {
        assert(s =~= seq![spec_digit_char(n)]);
        assert(s.drop_last() =~= Seq::<char>::empty());
        assert(spec_digits_val_checked(s.drop_last()) == Some(0nat));
        assert(s.last() == spec_digit_char(n));
        assert(spec_is_digit(spec_digit_char(n)));
        assert(spec_char_digit(spec_digit_char(n)) == n);
        assert(spec_digits_val_checked(s) == Some(n));
    } else {
        lemma_digits_val_checked_roundtrip(n / 10);
        assert(s.drop_last() =~= spec_digits(n / 10));
        assert(spec_digits_val_checked(s.drop_last()) == Some(n / 10));
        assert(s.last() == spec_digit_char(n % 10));
        assert(spec_is_digit(spec_digit_char(n % 10)));
        assert(spec_char_digit(spec_digit_char(n % 10)) == n % 10);
        assert((n / 10) * 10 + n % 10 == n) by (nonlinear_arith);
        assert(spec_digits_val_checked(s) == Some(n));
    }
}

/// The position of the first occurrence of `ch`, or the length if absent.
pub open spec fn spec_find(s: Seq<char>, ch: char) -> nat
    decreases s.len(),
{
    if s.len() == 0 {
        0
    } else if s[0] == ch {
        0
    } else {
        1 + spec_find(s.drop_first(), ch)
    }
}

/// What `spec_find` returns: a position within the string, carrying `ch`
/// if within, with no occurrence of `ch` before it.
proof fn lemma_spec_find(s: Seq<char>, ch: char)
    ensures
        spec_find(s, ch) <= s.len(),
        spec_find(s, ch) < s.len() ==> s[spec_find(s, ch) as int] == ch,
        forall|i: int| 0 <= i < spec_find(s, ch) ==> s[i] != ch,
    decreases s.len(),
{
    if s.len() > 0 && s[0] != ch {
        lemma_spec_find(s.drop_first(), ch);
        assert forall|i: int| 0 <= i < spec_find(s, ch) implies s[i] != ch by {
            if i > 0 {
                assert(s.drop_first()[i - 1] != ch);
            }
        }
    }
}

/// One step on the wire: the decimal id, a colon, the task name, a dot,
/// the operation name.
pub open spec fn spec_render_step(st: (nat, Seq<char>, Seq<char>)) -> Seq<char> {
    spec_digits(st.0) + seq![':'] + st.1 + seq!['.'] + st.2
}

/// The whole wire form: steps joined with commas; empty for no steps.
pub open spec fn spec_render(t: Seq<(nat, Seq<char>, Seq<char>)>) -> Seq<char>
    decreases t.len(),
{
    if t.len() == 0 {
        Seq::empty()
    } else if t.len() == 1 {
        spec_render_step(t[0])
    } else {
        spec_render_step(t[0]) + seq![','] + spec_render(t.drop_first())
    }
}

/// Divide one comma-free chunk at its first colon and first following
/// dot, and read the id part as a checked decimal number.
pub open spec fn spec_parse_step(chunk: Seq<char>) -> Option<(nat, Seq<char>, Seq<char>)> {
    let c = spec_find(chunk, ':');
    if c >= chunk.len() {
        Option::None
    } else {
        let idpart = chunk.take(c as int);
        let names = chunk.skip(c as int + 1);
        let d = spec_find(names, '.');
        if d >= names.len() {
            Option::None
        } else if idpart.len() == 0 {
            Option::None
        } else {
            match spec_digits_val_checked(idpart) {
                Option::None => Option::None,
                Option::Some(v) => Option::Some(
                    (v, names.take(d as int), names.skip(d as int + 1)),
                ),
            }
        }
    }
}

/// Divide a non-empty wire form at its commas and parse each chunk.
pub open spec fn spec_parse_steps(s: Seq<char>) -> Option<Seq<(nat, Seq<char>, Seq<char>)>>
    decreases s.len(),
{
    let k = spec_find(s, ',');
    let chunk = s.take(k as int);
    match spec_parse_step(chunk) {
        Option::None => Option::None,
        Option::Some(st) => if k >= s.len() {
            Option::Some(seq![st])
        } else {
            match spec_parse_steps(s.skip(k as int + 1)) {
                Option::None => Option::None,
                Option::Some(rest) => Option::Some(seq![st] + rest),
            }
        },
    }
}

/// The wire form read back as a trace: the empty string is the empty
/// trace, anything else divides at its commas.
pub open spec fn spec_parse(s: Seq<char>) -> Option<Seq<(nat, Seq<char>, Seq<char>)>> {
    if s.len() == 0 {
        Option::Some(Seq::empty())
    } else {
        spec_parse_steps(s)
    }
}

/// A step whose wire form can be re-divided: the id fits the machine,
/// the task name holds no comma and no dot, the operation name holds no
/// comma.
pub open spec fn spec_step_wellformed(st: (nat, Seq<char>, Seq<char>)) -> bool {
    st.0 <= usize::MAX && !st.1.contains(',') && !st.1.contains('.') && !st.2.contains(',')
}

/// A rendered well-formed step holds no comma.
proof fn lemma_render_step_no_comma(st: (nat, Seq<char>, Seq<char>))
    requires
        spec_step_wellformed(st),
    ensures
        !spec_render_step(st).contains(','),
{
    lemma_digits_are_digits(st.0);
    let rs = spec_render_step(st);
    let dl = spec_digits(st.0).len() as int;
    let nl = st.1.len() as int;
    assert forall|i: int| 0 <= i < rs.len() implies rs[i] != ',' by {
        if i < dl {
            assert(rs[i] == spec_digits(st.0)[i]);
            assert(spec_is_digit(rs[i]));
        } else if i == dl {
            assert(rs[i] == ':');
        } else if i < dl + 1 + nl {
            assert(rs[i] == st.1[i - dl - 1]);
            assert(!st.1.contains(','));
            assert(st.1[i - dl - 1] != ',');
        } else if i == dl + 1 + nl {
            assert(rs[i] == '.');
        } else {
            assert(rs[i] == st.2[i - dl - nl - 2]);
            assert(!st.2.contains(','));
            assert(st.2[i - dl - nl - 2] != ',');
        }
    }
    if rs.contains(',') {
        let w = choose|w: int| 0 <= w < rs.len() && rs[w] == ',';
        assert(rs[w] != ',');
    }
}

/// Parsing the wire form of one well-formed step gives back the step.
proof fn lemma_parse_render_step(st: (nat, Seq<char>, Seq<char>))
    requires
        spec_step_wellformed(st),
    ensures
        spec_parse_step(spec_render_step(st)) == Option::Some(st),
{
    lemma_digits_are_digits(st.0);
    let rs = spec_render_step(st);
    let digits = spec_digits(st.0);
    let dl = digits.len() as int;
    let nl = st.1.len() as int;
    // the first colon is the one the rendering wrote
    let c = spec_find(rs, ':');
    lemma_spec_find(rs, ':');
    assert(rs[dl] == ':');
    assert forall|i: int| 0 <= i < dl implies rs[i] != ':' by {
        assert(rs[i] == digits[i]);
        assert(spec_is_digit(rs[i]));
    }
    assert(c <= dl) by {
        if c > dl {
            assert(rs[dl] != ':');
        }
    }
    assert(c == dl) by {
        if c < dl {
            assert(rs[c as int] == ':');
        }
    }
    let idpart = rs.take(dl);
    assert(idpart =~= digits);
    let names = rs.skip(dl + 1);
    assert(names =~= st.1 + seq!['.'] + st.2);
    // the first dot of the remainder is the one the rendering wrote
    let d = spec_find(names, '.');
    lemma_spec_find(names, '.');
    assert(names[nl] == '.');
    assert forall|i: int| 0 <= i < nl implies names[i] != '.' by {
        assert(names[i] == st.1[i]);
        assert(!st.1.contains('.'));
        assert(st.1[i] != '.');
    }
    assert(d <= nl) by {
        if d > nl {
            assert(names[nl] != '.');
        }
    }
    assert(d == nl) by {
        if d < nl {
            assert(names[d as int] == '.');
        }
    }
    assert(names.take(nl) =~= st.1);
    assert(names.skip(nl + 1) =~= st.2);
    lemma_digits_val_checked_roundtrip(st.0);
    assert(spec_digits_val_checked(idpart) == Option::Some(st.0));
}

/// Parsing the rendered wire form of any trace of well-formed steps gives
/// back exactly that trace: rendering loses nothing that parsing cannot
/// recover.
pub proof fn lemma_parse_render_roundtrip(t: Seq<(nat, Seq<char>, Seq<char>)>)
    requires
        forall|i: int| 0 <= i < t.len() ==> spec_step_wellformed(#[trigger] t[i]),
    ensures
        spec_parse(spec_render(t)) == Option::Some(t),
    decreases t.len(),
{
    if t.len() == 0 {
        assert(spec_render(t) =~= Seq::<char>::empty());
        assert(spec_parse(spec_render(t)) == Option::Some(Seq::<(nat, Seq<char>, Seq<char>)>::empty()));
        assert(t =~= Seq::<(nat, Seq<char>, Seq<char>)>::empty());
    } else {
        let st = t[0];
        let rs = spec_render_step(st);
        lemma_digits_are_digits(st.0);
        assert(rs.len() >= 1);
        lemma_render_step_no_comma(st);
        lemma_parse_render_step(st);
        let s = spec_render(t);
        if t.len() == 1 {
            assert(s == rs);
            lemma_spec_find(s, ',');
            let k = spec_find(s, ',');
            assert(k == s.len()) by {
                if k < s.len() {
                    assert(s[k as int] == ',');
                    assert(s.contains(','));
                }
            }
            assert(s.take(k as int) =~= rs);
            assert(spec_parse_steps(s) == Option::Some(seq![st]));
            assert(seq![st] =~= t);
        } else {
            let rest = spec_render(t.drop_first());
            assert(s == rs + seq![','] + rest);
            let k = spec_find(s, ',');
            lemma_spec_find(s, ',');
            assert(s[rs.len() as int] == ',');
            assert forall|i: int| 0 <= i < rs.len() implies s[i] != ',' by {
                assert(s[i] == rs[i]);
                if rs[i] == ',' {
                    assert(rs.contains(','));
                }
            }
            assert(k <= rs.len()) by {
                if k > rs.len() {
                    assert(s[rs.len() as int] != ',');
                }
            }
            assert(k == rs.len()) by {
                if k < rs.len() {
                    assert(s[k as int] == ',');
                }
            }
            assert(s.take(k as int) =~= rs);
            assert(s.skip(k as int + 1) =~= rest);
            assert(forall|i: int|
                0 <= i < t.drop_first().len() ==> spec_step_wellformed(
                    #[trigger] t.drop_first()[i],
                ));
            lemma_parse_render_roundtrip(t.drop_first());
            assert(t.drop_first().len() >= 1);
            assert(rest.len() >= 1) by {
                lemma_digits_are_digits(t.drop_first()[0].0);
            }
            assert(spec_parse_steps(rest) == Option::Some(t.drop_first()));
            assert(k < s.len());
            assert(spec_parse_steps(s) == Option::Some(seq![st] + t.drop_first()));
            assert(seq![st] + t.drop_first() =~= t);
            assert(s.len() >= 1);
        }
    }
}

/// Relies on `String: FromIterator<char>`: collecting characters yields
/// the string of exactly those characters, in order.
#[verifier::external_body]
pub(crate) fn chars_to_string(v: &Vec<char>) -> (r: String)
    ensures
        r@ == v@,
{
    v.iter().collect()
}

/// The decimal digit character of a value below ten.
fn digit_char(d: usize) -> (r: char)
    requires
        d < 10,
    ensures
        r == spec_digit_char(d as nat),
{
    match d {
        0 => '0',
        1 => '1',
        2 => '2',
        3 => '3',
        4 => '4',
        5 => '5',
        6 => '6',
        7 => '7',
        8 => '8',
        _ => '9',
    }
}

/// The value of a decimal digit character; ten for a non-digit.
fn char_digit(c: char) -> (r: usize)
    ensures
        r == spec_char_digit(c),
{
    match c {
        '0' => 0,
        '1' => 1,
        '2' => 2,
        '3' => 3,
        '4' => 4,
        '5' => 5,
        '6' => 6,
        '7' => 7,
        '8' => 8,
        '9' => 9,
        _ => 10,
    }
}

/// Append the canonical decimal rendering of `n`.
pub(crate) fn push_digits(out: &mut Vec<char>, n: usize)
    ensures
        final(out)@ == old(out)@ + spec_digits(n as nat),
    decreases n,
{
    let ghost o0 = out@;
    if n >= 10 {
        push_digits(out, n / 10);
        let c = digit_char(n % 10);
        out.push(c);
        proof {
            assert(spec_digits(n as nat) =~= spec_digits(n as nat / 10).push(
                spec_digit_char(n as nat % 10),
            ));
            assert(out@ =~= o0 + spec_digits(n as nat));
        }
    } else {
        let c = digit_char(n);
        out.push(c);
        proof {
            assert(spec_digits(n as nat) =~= seq![spec_digit_char(n as nat)]);
            assert(out@ =~= o0 + spec_digits(n as nat));
        }
    }
}

/// Append the characters of `s`.
pub(crate) fn push_str_chars(out: &mut Vec<char>, s: &str)
    ensures
        final(out)@ == old(out)@ + s@,
{
    let n = s.unicode_len();
    let mut i: usize = 0;
    proof {
        assert(out@ =~= old(out)@ + s@.take(0));
    }
    while i < n
        invariant
            0 <= i <= n,
            n == s@.len(),
            out@ == old(out)@ + s@.take(i as int),
        decreases n - i,
    {
        let c = s.get_char(i);
        out.push(c);
        proof {
            assert(s@.take(i as int + 1) =~= s@.take(i as int).push(s@[i as int]));
            assert(out@ =~= old(out)@ + s@.take(i as int + 1));
        }
        i = i + 1;
    }
    proof {
        assert(s@.take(n as int) =~= s@);
    }
}

/// The characters of `s`.
fn str_chars(s: &str) -> (r: Vec<char>)
    ensures
        r@ == s@,
{
    let mut v: Vec<char> = Vec::new();
    push_str_chars(&mut v, s);
    proof {
        assert(Seq::<char>::empty() + s@ =~= s@);
    }
    v
}

/// Joining one more step appends a comma and the step's wire form.
proof fn lemma_render_push(t: Seq<(nat, Seq<char>, Seq<char>)>, st: (nat, Seq<char>, Seq<char>))
    requires
        t.len() >= 1,
    ensures
        spec_render(t.push(st)) == spec_render(t) + seq![','] + spec_render_step(st),
    decreases t.len(),
{
    let tp = t.push(st);
    if t.len() == 1 {
        assert(tp.drop_first() =~= seq![st]);
        assert(spec_render(seq![st]) == spec_render_step(st));
        assert(spec_render(tp) == spec_render_step(t[0]) + seq![','] + spec_render_step(st));
        assert(spec_render(t) == spec_render_step(t[0]));
    } else {
        assert(tp.drop_first() =~= t.drop_first().push(st));
        lemma_render_push(t.drop_first(), st);
        assert(spec_render(tp) == spec_render_step(t[0]) + seq![','] + (spec_render(t.drop_first())
            + seq![','] + spec_render_step(st)));
        assert(spec_render_step(t[0]) + seq![','] + (spec_render(t.drop_first()) + seq![',']
            + spec_render_step(st)) =~= (spec_render_step(t[0]) + seq![','] + spec_render(
            t.drop_first(),
        )) + seq![','] + spec_render_step(st));
    }
}

impl Trace {
    /// An empty trace.
    pub fn new() -> (r: Trace)
        ensures
            r@ =~= Seq::<(nat, Seq<char>, Seq<char>)>::empty(),
    {
        Trace { steps: Vec::new() }
    }

    /// How many steps the trace holds.
    pub fn len(&self) -> (r: usize)
        ensures
            r == self@.len(),
    {
        self.steps.len()
    }

    /// Append one step.
    pub fn push_step(&mut self, step: TraceStep)
        ensures
            final(self)@ == old(self)@.push(step@),
    {
        self.steps.push(step);
        proof {
            assert(self@ =~= old(self)@.push(step@));
        }
    }

    /// The step at position `i`.
    pub fn get(&self, i: usize) -> (r: &TraceStep)
        requires
            i < self@.len(),
        ensures
            r@ == self@[i as int],
    {
        &self.steps[i]
    }

    /// The steps, in order.
    pub fn steps(&self) -> (r: &Vec<TraceStep>)
        ensures
            r@.len() == self@.len(),
            forall|i: int| 0 <= i < r@.len() ==> (#[trigger] r@[i])@ == self@[i],
    {
        &self.steps
    }

    /// The wire form of this trace: steps as `id:task.op`, joined with
    /// commas; the empty trace renders as the empty string.
    pub fn render(&self) -> (r: String)
        ensures
            r@ == spec_render(self@),
    {
        let mut out: Vec<char> = Vec::new();
        let mut i: usize = 0;
        proof {
            assert(self@.take(0) =~= Seq::<(nat, Seq<char>, Seq<char>)>::empty());
            assert(out@ =~= spec_render(self@.take(0)));
        }
        while i < self.steps.len()
            invariant
                0 <= i <= self.steps@.len(),
                self@.len() == self.steps@.len(),
                forall|j: int| 0 <= j < self.steps@.len() ==> (#[trigger] self.steps@[j])@ == self@[j],
                out@ == spec_render(self@.take(i as int)),
            decreases self.steps@.len() - i,
        {
            let ghost o0 = out@;
            let st = &self.steps[i];
            if i > 0 {
                out.push(',');
            }
            let ghost o1 = out@;
            push_digits(&mut out, st.task_id);
            out.push(':');
            push_str_chars(&mut out, st.task_name.as_str());
            out.push('.');
            push_str_chars(&mut out, st.op_name.as_str());
            proof {
                assert(out@ =~= o1 + spec_render_step(self@[i as int]));
                assert(self@.take(i as int + 1) =~= self@.take(i as int).push(self@[i as int]));
                if i == 0 {
                    assert(o1 =~= Seq::<char>::empty());
                    assert(self@.take(1) =~= seq![self@[0]]);
                    assert(spec_render(seq![self@[0]]) == spec_render_step(self@[0]));
                    assert(out@ =~= spec_render(self@.take(i as int + 1)));
                } else {
                    lemma_render_push(self@.take(i as int), self@[i as int]);
                    assert(o1 =~= spec_render(self@.take(i as int)) + seq![',']);
                    assert(out@ =~= spec_render(self@.take(i as int)) + seq![',']
                        + spec_render_step(self@[i as int]));
                }
            }
            i = i + 1;
        }
        proof {
            assert(self@.take(self@.len() as int) =~= self@);
        }
        chars_to_string(&out)
    }
}

impl core::str::FromStr for Trace {
    type Err = ParseTraceError;

    /// The wire form read back; see `Trace::parse`.
    fn from_str(s: &str) -> Result<Trace, ParseTraceError> {
        Trace::parse(s)
    }
}

/// Parse one comma-free chunk as `id:task.op`.
fn parse_step(chunk: &Vec<char>) -> (r: Result<TraceStep, ParseTraceError>)
    ensures
        match r {
            Ok(st) => spec_parse_step(chunk@) == Option::Some(st@),
            Err(_) => spec_parse_step(chunk@) is None,
        },
{
    let n = chunk.len();
    // find the first colon
    let mut c: usize = 0;
    while c < n && *(&chunk[c]) != ':'
        invariant
            0 <= c <= n,
            n == chunk@.len(),
            forall|j: int| 0 <= j < c ==> chunk@[j] != ':',
        decreases n - c,
    {
        c = c + 1;
    }
    proof {
        lemma_spec_find(chunk@, ':');
        if c < n {
            assert(chunk@[c as int] == ':');
            if spec_find(chunk@, ':') < c {
                assert(chunk@[spec_find(chunk@, ':') as int] == ':');
            }
        }
        assert(spec_find(chunk@, ':') == c);
    }
    if c >= n {
        return Err(ParseTraceError);
    }
    if c == 0 {
        proof {
            assert(chunk@.take(0).len() == 0);
        }
        return Err(ParseTraceError);
    }
    let ghost idpart = chunk@.take(c as int);
    let ghost names = chunk@.skip(c as int + 1);
    // read the id part as a checked decimal number
    let mut val: usize = 0;
    let mut ok = true;
    let mut j: usize = 0;
    proof {
        assert(chunk@.take(0) =~= Seq::<char>::empty());
    }
    while j < c
        invariant
            0 <= j <= c <= n,
            n == chunk@.len(),
            ok ==> spec_digits_val_checked(chunk@.take(j as int)) == Option::Some(val as nat),
            !ok ==> spec_digits_val_checked(chunk@.take(j as int)) is None,
        decreases c - j,
    {
        let ghost prefix = chunk@.take(j as int + 1);
        proof {
            assert(prefix.drop_last() =~= chunk@.take(j as int));
            assert(prefix.last() == chunk@[j as int]);
        }
        if ok {
            let d = char_digit(chunk[j]);
            if d >= 10 {
                ok = false;
            } else {
                match val.checked_mul(10) {
                    Option::Some(v10) => {
                        match v10.checked_add(d) {
                            Option::Some(v) => {
                                val = v;
                            },
                            Option::None => {
                                ok = false;
                            },
                        }
                    },
                    Option::None => {
                        ok = false;
                    },
                }
            }
        }
        j = j + 1;
    }
    if !ok {
        return Err(ParseTraceError);
    }
    // find the first dot after the colon
    let mut d: usize = c + 1;
    while d < n && *(&chunk[d]) != '.'
        invariant
            c + 1 <= d <= n,
            n == chunk@.len(),
            forall|j2: int| c + 1 <= j2 < d ==> chunk@[j2] != '.',
        decreases n - d,
    {
        d = d + 1;
    }
    proof {
        lemma_spec_find(names, '.');
        assert(names.len() == n - c - 1);
        assert forall|j2: int| 0 <= j2 < d - c - 1 implies names[j2] != '.' by {
            assert(names[j2] == chunk@[j2 + c + 1]);
        }
        if d < n {
            assert(names[d - c - 1] == chunk@[d as int]);
            if spec_find(names, '.') < d - c - 1 {
                assert(names[spec_find(names, '.') as int] == '.');
                assert(chunk@[spec_find(names, '.') as int + c + 1] == '.');
            }
        }
        assert(spec_find(names, '.') == d - c - 1);
    }
    if d >= n {
        return Err(ParseTraceError);
    }
    // copy out the two names
    let mut namev: Vec<char> = Vec::new();
    let mut j2: usize = c + 1;
    while j2 < d
        invariant
            c + 1 <= j2 <= d <= n,
            n == chunk@.len(),
            namev@ == chunk@.subrange(c as int + 1, j2 as int),
        decreases d - j2,
    {
        let ch = chunk[j2];
        namev.push(ch);
        proof {
            assert(chunk@.subrange(c as int + 1, j2 as int + 1) =~= chunk@.subrange(
                c as int + 1,
                j2 as int,
            ).push(chunk@[j2 as int]));
        }
        j2 = j2 + 1;
    }
    let mut opv: Vec<char> = Vec::new();
    let mut j3: usize = d + 1;
    while j3 < n
        invariant
            d + 1 <= j3 <= n,
            n == chunk@.len(),
            opv@ == chunk@.subrange(d as int + 1, j3 as int),
        decreases n - j3,
    {
        let ch = chunk[j3];
        opv.push(ch);
        proof {
            assert(chunk@.subrange(d as int + 1, j3 as int + 1) =~= chunk@.subrange(
                d as int + 1,
                j3 as int,
            ).push(chunk@[j3 as int]));
        }
        j3 = j3 + 1;
    }
    let task_name = chars_to_string(&namev);
    let op_name = chars_to_string(&opv);
    let st = TraceStep { task_id: val, task_name, op_name };
    proof {
        assert(namev@ =~= names.take(d - c - 1));
        assert(opv@ =~= names.skip(d - c - 1 + 1));
    }
    Ok(st)
}

impl Trace {
    /// Read a trace back from its wire form: the empty string is the
    /// empty trace; otherwise the string divides at its commas into
    /// `id:task.op` steps, and any chunk that cannot be so divided, or
    /// whose id is not a machine-sized decimal number, is an error.
    pub fn parse(s: &str) -> (r: Result<Trace, ParseTraceError>)
        ensures
            match r {
                Ok(t) => spec_parse(s@) == Option::Some(t@),
                Err(_) => spec_parse(s@) is None,
            },
    {
        let cs = str_chars(s);
        let n = cs.len();
        if n == 0 {
            let t = Trace::new();
            proof {
                assert(t@ =~= Seq::<(nat, Seq<char>, Seq<char>)>::empty());
            }
            return Ok(t);
        }
        let mut steps: Vec<TraceStep> = Vec::new();
        let mut pos: usize = 0;
        proof {
            assert(cs@.skip(0) =~= cs@);
            assert(steps@.map_values(|st: TraceStep| st@) =~= Seq::<(
                nat,
                Seq<char>,
                Seq<char>,
            )>::empty());
        }
        while pos < n
            invariant
                0 <= pos <= n,
                n == cs@.len(),
                cs@ == s@,
                n > 0,
                ({
                    let tv = steps@.map_values(|st: TraceStep| st@);
                    match spec_parse_steps(cs@.skip(pos as int)) {
                        Option::None => spec_parse_steps(cs@) is None,
                        Option::Some(rest) => spec_parse_steps(cs@) == Option::Some(tv + rest),
                    }
                }),
            decreases n - pos,
        {
            let ghost sk = cs@.skip(pos as int);
            let ghost tv0 = steps@.map_values(|st: TraceStep| st@);
            // find the next comma
            let mut k: usize = pos;
            while k < n && *(&cs[k]) != ','
                invariant
                    pos <= k <= n,
                    n == cs@.len(),
                    forall|j: int| pos <= j < k ==> cs@[j] != ',',
                decreases n - k,
            {
                k = k + 1;
            }
            proof {
                lemma_spec_find(sk, ',');
                assert(sk.len() == n - pos);
                assert forall|j: int| 0 <= j < k - pos implies sk[j] != ',' by {
                    assert(sk[j] == cs@[j + pos]);
                }
                if k < n {
                    assert(sk[k - pos] == cs@[k as int]);
                    if spec_find(sk, ',') < k - pos {
                        assert(sk[spec_find(sk, ',') as int] == ',');
                        assert(cs@[spec_find(sk, ',') as int + pos] == ',');
                    }
                }
                assert(spec_find(sk, ',') == k - pos);
            }
            // copy out the chunk
            let mut chunk: Vec<char> = Vec::new();
            let mut j: usize = pos;
            while j < k
                invariant
                    pos <= j <= k <= n,
                    n == cs@.len(),
                    chunk@ == cs@.subrange(pos as int, j as int),
                decreases k - j,
            {
                let ch = cs[j];
                chunk.push(ch);
                proof {
                    assert(cs@.subrange(pos as int, j as int + 1) =~= cs@.subrange(
                        pos as int,
                        j as int,
                    ).push(cs@[j as int]));
                }
                j = j + 1;
            }
            proof {
                assert(chunk@ =~= sk.take(k - pos));
            }
            match parse_step(&chunk) {
                Err(e) => {
                    proof {
                        assert(spec_parse_steps(sk) is None);
                    }
                    return Err(e);
                },
                Ok(st) => {
                    let ghost stv = st@;
                    steps.push(st);
                    proof {
                        assert(steps@.map_values(|st2: TraceStep| st2@) =~= tv0.push(stv));
                    }
                    if k >= n {
                        proof {
                            assert(spec_parse_steps(sk) == Option::Some(seq![stv]));
                            assert(tv0 + seq![stv] =~= tv0.push(stv));
                        }
                        let t = Trace { steps };
                        return Ok(t);
                    }
                    proof {
                        assert(sk.skip(k - pos + 1) =~= cs@.skip(k as int + 1));
                        let tv1 = tv0.push(stv);
                        match spec_parse_steps(cs@.skip(k as int + 1)) {
                            Option::None => {
                                assert(spec_parse_steps(sk) is None);
                            },
                            Option::Some(rest) => {
                                assert(spec_parse_steps(sk) == Option::Some(seq![stv] + rest));
                                assert(tv0 + (seq![stv] + rest) =~= tv1 + rest);
                            },
                        }
                    }
                    pos = k + 1;
                },
            }
        }
        // the wire form ended just after a comma: the final chunk is empty
        proof {
            let sk = cs@.skip(pos as int);
            assert(sk.len() == 0);
            assert(sk.take(spec_find(sk, ',') as int).len() == 0);
            assert(spec_parse_step(sk.take(spec_find(sk, ',') as int)) is None);
            assert(spec_parse_steps(sk) is None);
        }
        Err(ParseTraceError)
    }
}

} // verus!
