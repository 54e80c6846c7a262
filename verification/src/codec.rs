//! The persistence format: one JSON array of task objects with a stable
//! field order (id, description, status, created_at, updated_at), pretty
//! enough to read (one object per line), newline-terminated. The encoder
//! and the parser are both verified against spec-level definitions, and the
//! round trip is proved: parsing an encoded store yields that store.

use vstd::prelude::*;
use vstd::string::StrSliceExecFns;
use vstd::string::StringExecFns;
use crate::task::{status_name, status_of, valid_status, Status, Task, TaskV};
use crate::store::{ids_positive, ids_unique, task_views, wf_tasks, TaskStore};

verus! {

// ---------------------------------------------------------------------------
// String escaping
// ---------------------------------------------------------------------------
/// Whether a character cannot stand raw inside a JSON string literal here.
pub open spec fn needs_esc(c: char) -> bool {
    c == '"' || c == '\\' || c == '\n' || c == '\t' || c == '\r'
}

/// The canonical encoding of one character inside a string literal.
pub open spec fn esc_char(c: char) -> Seq<char> {
    if c == '"' {
        seq!['\\', '"']
    } else if c == '\\' {
        seq!['\\', '\\']
    } else if c == '\n' {
        seq!['\\', 'n']
    } else if c == '\t' {
        seq!['\\', 't']
    } else if c == '\r' {
        seq!['\\', 'r']
    } else {
        seq![c]
    }
}

/// The canonical encoding of a whole string body (without the quotes).
pub open spec fn esc(s: Seq<char>) -> Seq<char>
    decreases s.len(),
{
    if s.len() == 0 {
        Seq::empty()
    } else {
        esc_char(s[0]) + esc(s.drop_first())
    }
}

/// Escaping distributes over concatenation.
pub proof fn lemma_esc_concat(a: Seq<char>, b: Seq<char>)
    ensures
        esc(a + b) == esc(a) + esc(b),
    decreases a.len(),
{
    if a.len() == 0 {
        assert(a + b =~= b);
        assert(esc(a) + esc(b) =~= esc(b));
    } else {
        assert((a + b).drop_first() =~= a.drop_first() + b);
        lemma_esc_concat(a.drop_first(), b);
        assert(esc(a + b) =~= esc(a) + esc(b));
    }
}

/// Escaping a single character yields exactly its encoding.
pub proof fn lemma_esc_one(c: char)
    ensures
        esc(seq![c]) == esc_char(c),
{
    assert(seq![c].drop_first() =~= Seq::<char>::empty());
    assert(esc(Seq::<char>::empty()) =~= Seq::<char>::empty());
    assert(esc(seq![c]) =~= esc_char(c) + esc(seq![c].drop_first()));
    assert(esc(seq![c]) =~= esc_char(c));
}

/// A string with nothing to escape encodes as itself.
pub proof fn lemma_esc_plain(s: Seq<char>)
    requires
        forall|k: int| 0 <= k < s.len() ==> !needs_esc(#[trigger] s[k]),
    ensures
        esc(s) == s,
    decreases s.len(),
{
    if s.len() > 0 {
        assert(forall|k: int|
            0 <= k < s.drop_first().len() ==> !needs_esc(#[trigger] s.drop_first()[k]));
        lemma_esc_plain(s.drop_first());
        assert(esc(s) =~= s);
    }
}

// ---------------------------------------------------------------------------
// Decimal numbers
// ---------------------------------------------------------------------------
/// The decimal digit character for a value below ten.
pub open spec fn d_char(d: int) -> char {
    if d == 0 {
        '0'
    } else if d == 1 {
        '1'
    } else if d == 2 {
        '2'
    } else if d == 3 {
        '3'
    } else if d == 4 {
        '4'
    } else if d == 5 {
        '5'
    } else if d == 6 {
        '6'
    } else if d == 7 {
        '7'
    } else if d == 8 {
        '8'
    } else {
        '9'
    }
}

/// Whether a character is a decimal digit.
pub open spec fn is_digit(c: char) -> bool {
    c == '0' || c == '1' || c == '2' || c == '3' || c == '4' || c == '5' || c == '6' || c == '7'
        || c == '8' || c == '9'
}

/// The value of a digit character.
pub open spec fn dval(c: char) -> int {
    if c == '0' {
        0
    } else if c == '1' {
        1
    } else if c == '2' {
        2
    } else if c == '3' {
        3
    } else if c == '4' {
        4
    } else if c == '5' {
        5
    } else if c == '6' {
        6
    } else if c == '7' {
        7
    } else if c == '8' {
        8
    } else {
        9
    }
}

/// The canonical decimal spelling of a number (no leading zeros).
pub open spec fn dec(n: nat) -> Seq<char>
    decreases n,
{
    if n < 10 {
        seq![d_char(n as int)]
    } else {
        dec(n / 10) + seq![d_char((n % 10) as int)]
    }
}

/// The value of a sequence of digit characters.
pub open spec fn dseq_val(ds: Seq<char>) -> int
    decreases ds.len(),
{
    if ds.len() == 0 {
        0
    } else {
        dseq_val(ds.drop_last()) * 10 + dval(ds.last())
    }
}

// ---------------------------------------------------------------------------
// The format itself
// ---------------------------------------------------------------------------
/// The whole document for an empty store.
pub open spec fn lit_empty() -> Seq<char> {
    "[]\n"@
}

/// Opens the array.
pub open spec fn lit_open() -> Seq<char> {
    "[\n"@
}

/// Opens one task object, up to the id value.
pub open spec fn lit_id() -> Seq<char> {
    "  {\"id\": "@
}

/// Between the id value and the description value.
pub open spec fn lit_desc() -> Seq<char> {
    ", \"description\": \""@
}

/// Between the description value and the status value.
pub open spec fn lit_status() -> Seq<char> {
    ", \"status\": \""@
}

/// Between the status value and the created_at value.
pub open spec fn lit_created() -> Seq<char> {
    ", \"created_at\": \""@
}

/// Between the created_at value and the updated_at value.
pub open spec fn lit_updated() -> Seq<char> {
    ", \"updated_at\": \""@
}

/// Closes one task object.
pub open spec fn lit_end_obj() -> Seq<char> {
    "}"@
}

/// Between two task objects.
pub open spec fn lit_sep() -> Seq<char> {
    ",\n"@
}

/// Closes the array and terminates the document.
pub open spec fn lit_close() -> Seq<char> {
    "\n]\n"@
}

/// A double quote.
pub open spec fn qt() -> Seq<char> {
    seq!['"']
}

/// The encoding of one task object.
pub open spec fn enc_task(t: TaskV) -> Seq<char> {
    lit_id() + dec(t.id as nat) + lit_desc() + esc(t.description) + qt() + lit_status()
        + status_name(t.status) + qt() + lit_created() + esc(t.created_at) + qt() + lit_updated()
        + esc(t.updated_at) + qt() + lit_end_obj()
}

/// The encodings of the tasks, joined by the separator.
pub open spec fn enc_list(ts: Seq<TaskV>) -> Seq<char>
    decreases ts.len(),
{
    if ts.len() == 0 {
        Seq::empty()
    } else if ts.len() == 1 {
        enc_task(ts[0])
    } else {
        enc_task(ts[0]) + lit_sep() + enc_list(ts.drop_first())
    }
}

/// The whole document for a store.
pub open spec fn encode(ts: Seq<TaskV>) -> Seq<char> {
    if ts.len() == 0 {
        lit_empty()
    } else {
        lit_open() + enc_list(ts) + lit_close()
    }
}

/// Appending one task to a non-empty list appends a separator and its
/// encoding; to an empty list, just its encoding.
pub proof fn lemma_enc_list_snoc(ts: Seq<TaskV>, t: TaskV)
    ensures
        ts.len() == 0 ==> enc_list(ts.push(t)) == enc_task(t),
        ts.len() > 0 ==> enc_list(ts.push(t)) == enc_list(ts) + lit_sep() + enc_task(t),
    decreases ts.len(),
{
    let p = ts.push(t);
    if ts.len() == 0 {
        assert(p.len() == 1);
        assert(p[0] == t);
    } else {
        assert(p[0] == ts[0]);
        assert(p.drop_first() =~= ts.drop_first().push(t));
        lemma_enc_list_snoc(ts.drop_first(), t);
        if ts.len() == 1 {
            assert(enc_list(p) =~= enc_list(ts) + lit_sep() + enc_task(t));
        } else {
            assert(enc_list(p) =~= enc_list(ts) + lit_sep() + enc_task(t));
        }
    }
}

// ---------------------------------------------------------------------------
// The verified encoder
// ---------------------------------------------------------------------------
/// Relies on `String::push`: appends exactly the given character.
#[verifier::external_body]
fn push_char(out: &mut String, c: char)
    ensures
        final(out)@ == old(out)@.push(c),
{
    out.push(c);
}

/// The decimal digit character for a value below ten.
fn digit_char(d: u32) -> (r: char)
    requires
        d < 10,
    ensures
        r == d_char(d as int),
{
    match d {
        0 => '0',
        1 => '1',
        2 => '2',
        3 => '3',
        4 => '4',
        5 => '5',
        6 => '6',
        7 => '7',
        8 => '8',
        _ => '9',
    }
}

/// Writes the canonical decimal spelling of `n`.
fn write_u32(n: u32, out: &mut String)
    ensures
        final(out)@ == old(out)@ + dec(n as nat),
    decreases n,
{
    if n < 10 {
        push_char(out, digit_char(n));
        proof {
            assert(out@ =~= old(out)@ + dec(n as nat));
        }
    } else {
        write_u32(n / 10, out);
        push_char(out, digit_char(n % 10));
        proof {
            assert(out@ =~= old(out)@ + dec(n as nat));
        }
    }
}

/// Writes the body of a string literal, escaping what must be escaped.
fn write_escaped(s: &str, out: &mut String)
    ensures
        final(out)@ == old(out)@ + esc(s@),
{
    let n = s.unicode_len();
    let mut k: usize = 0;
    proof {
        assert(s@.take(0) =~= Seq::<char>::empty());
        assert(out@ =~= old(out)@ + esc(s@.take(0)));
    }
    while k < n
        invariant
            n == s@.len(),
            0 <= k <= n,
            out@ == old(out)@ + esc(s@.take(k as int)),
        decreases n - k,
    {
        let ghost prefix = s@.take(k as int);
        let c = s.get_char(k);
        if c == '"' {
            push_char(out, '\\');
            push_char(out, '"');
        } else if c == '\\' {
            push_char(out, '\\');
            push_char(out, '\\');
        } else if c == '\n' {
            push_char(out, '\\');
            push_char(out, 'n');
        } else if c == '\t' {
            push_char(out, '\\');
            push_char(out, 't');
        } else if c == '\r' {
            push_char(out, '\\');
            push_char(out, 'r');
        } else {
            push_char(out, c);
        }
        proof {
            assert(s@.take(k + 1) =~= prefix + seq![s@[k as int]]);
            lemma_esc_concat(prefix, seq![s@[k as int]]);
            lemma_esc_one(s@[k as int]);
            assert(out@ =~= old(out)@ + esc(s@.take(k + 1)));
        }
        k += 1;
    }
    proof {
        assert(s@.take(n as int) =~= s@);
    }
}

/// Writes the encoding of one task object.
fn write_task(t: &Task, out: &mut String)
    ensures
        final(out)@ == old(out)@ + enc_task(t@),
{
    out.append("  {\"id\": ");
    write_u32(t.id, out);
    out.append(", \"description\": \"");
    write_escaped(t.description.as_str(), out);
    push_char(out, '"');
    out.append(", \"status\": \"");
    let name = t.status.get();
    out.append(name.as_str());
    push_char(out, '"');
    out.append(", \"created_at\": \"");
    write_escaped(t.created_at.as_str(), out);
    push_char(out, '"');
    out.append(", \"updated_at\": \"");
    write_escaped(t.updated_at.as_str(), out);
    push_char(out, '"');
    out.append("}");
    proof {
        assert(out@ =~= old(out)@ + enc_task(t@));
    }
}

impl TaskStore {
    /// Serializes the full collection: human-readable, stable field order,
    /// newline-terminated.
    pub fn to_json(&self) -> (r: String)
        ensures
            r@ == encode(self@),
    {
        let mut out = String::new();
        if self.tasks.len() == 0 {
            out.append("[]\n");
            proof {
                assert(out@ =~= lit_empty());
            }
            return out;
        }
        out.append("[\n");
        let mut k: usize = 0;
        proof {
            assert(self@.take(0) =~= Seq::<TaskV>::empty());
            assert(out@ =~= lit_open() + enc_list(self@.take(0)));
        }
        while k < self.tasks.len()
            invariant
                0 < self.tasks@.len(),
                0 <= k <= self.tasks@.len(),
                self@.len() == self.tasks@.len(),
                out@ == lit_open() + enc_list(self@.take(k as int)),
            decreases self.tasks@.len() - k,
        {
            let ghost prefix = self@.take(k as int);
            if k > 0 {
                out.append(",\n");
            }
            write_task(&self.tasks[k], &mut out);
            proof {
                assert(self@.take(k + 1) =~= prefix.push(self@[k as int]));
                lemma_enc_list_snoc(prefix, self@[k as int]);
                assert(out@ =~= lit_open() + enc_list(self@.take(k + 1)));
            }
            k += 1;
        }
        out.append("\n]\n");
        proof {
            assert(self@.take(self@.len() as int) =~= self@);
            assert(out@ =~= encode(self@));
        }
        out
    }
}


// ---------------------------------------------------------------------------
// The parser, at the specification level
// ---------------------------------------------------------------------------
/// Consumes an exact literal at position `i`.
pub open spec fn p_lit(s: Seq<char>, i: int, lit: Seq<char>) -> Option<int> {
    if 0 <= i && i + lit.len() <= s.len() && s.subrange(i, i + lit.len()) == lit {
        Some(i + lit.len())
    } else {
        None
    }
}

/// Parses a string literal body up to and including the closing quote,
/// yielding the unescaped content.
pub open spec fn p_str(s: Seq<char>, i: int) -> Option<(Seq<char>, int)>
    decreases s.len() - i,
{
    if i < 0 || i >= s.len() {
        None
    } else if s[i] == '"' {
        Some((Seq::empty(), i + 1))
    } else if s[i] == '\\' {
        if i + 1 >= s.len() {
            None
        } else {
            let e = s[i + 1];
            if e == '"' || e == '\\' || e == 'n' || e == 't' || e == 'r' {
                let c = if e == '"' {
                    '"'
                } else if e == '\\' {
                    '\\'
                } else if e == 'n' {
                    '\n'
                } else if e == 't' {
                    '\t'
                } else {
                    '\r'
                };
                match p_str(s, i + 2) {
                    Some(p) => Some((seq![c] + p.0, p.1)),
                    None => None,
                }
            } else {
                None
            }
        }
    } else {
        match p_str(s, i + 1) {
            Some(p) => Some((seq![s[i]] + p.0, p.1)),
            None => None,
        }
    }
}

/// The end of the run of digit characters starting at `i`.
pub open spec fn run_end(s: Seq<char>, i: int) -> int
    decreases s.len() - i,
{
    if 0 <= i < s.len() && is_digit(s[i]) {
        run_end(s, i + 1)
    } else {
        i
    }
}

/// Parses a decimal number that fits in a `u32`.
pub open spec fn p_num(s: Seq<char>, i: int) -> Option<(u32, int)> {
    let j = run_end(s, i);
    if j == i {
        None
    } else if dseq_val(s.subrange(i, j)) > u32::MAX {
        None
    } else {
        Some((dseq_val(s.subrange(i, j)) as u32, j))
    }
}

/// Parses one task object.
pub open spec fn p_task(s: Seq<char>, i: int) -> Option<(TaskV, int)> {
    match p_lit(s, i, lit_id()) {
        None => None,
        Some(i1) => match p_num(s, i1) {
            None => None,
            Some((id, i2)) => match p_lit(s, i2, lit_desc()) {
                None => None,
                Some(i3) => match p_str(s, i3) {
                    None => None,
                    Some((d, i4)) => match p_lit(s, i4, lit_status()) {
                        None => None,
                        Some(i5) => match p_str(s, i5) {
                            None => None,
                            Some((sn, i6)) => if !valid_status(sn) {
                                None
                            } else {
                                match p_lit(s, i6, lit_created()) {
                                    None => None,
                                    Some(i7) => match p_str(s, i7) {
                                        None => None,
                                        Some((ca, i8)) => match p_lit(s, i8, lit_updated()) {
                                            None => None,
                                            Some(i9) => match p_str(s, i9) {
                                                None => None,
                                                Some((ua, i10)) => match p_lit(
                                                    s,
                                                    i10,
                                                    lit_end_obj(),
                                                ) {
                                                    None => None,
                                                    Some(i11) => Some(
                                                        (
                                                            TaskV {
                                                                id: id,
                                                                description: d,
                                                                status: status_of(sn),
                                                                created_at: ca,
                                                                updated_at: ua,
                                                            },
                                                            i11,
                                                        ),
                                                    ),
                                                },
                                            },
                                        },
                                    },
                                }
                            },
                        },
                    },
                },
            },
        },
    }
}

/// Parses one or more task objects joined by the separator. The fuel only
/// bounds the recursion; any value at least the number of tasks serves.
pub open spec fn p_tasks(s: Seq<char>, i: int, fuel: nat) -> Option<(Seq<TaskV>, int)>
    decreases fuel,
{
    if fuel == 0 {
        None
    } else {
        match p_task(s, i) {
            None => None,
            Some((t, j)) => match p_lit(s, j, lit_sep()) {
                None => Some((seq![t], j)),
                Some(j2) => match p_tasks(s, j2, (fuel - 1) as nat) {
                    None => None,
                    Some((ts, k)) => Some((seq![t] + ts, k)),
                },
            },
        }
    }
}

/// Parses a whole document, strictly: nothing may follow the closing
/// bracket. A document that parses but breaks the store invariant is
/// handled by `from_json`, not here.
pub open spec fn decode(s: Seq<char>) -> Option<Seq<TaskV>> {
    if s == lit_empty() {
        Some(Seq::empty())
    } else {
        match p_lit(s, 0, lit_open()) {
            None => None,
            Some(i) => match p_tasks(s, i, s.len()) {
                None => None,
                Some((ts, j)) => match p_lit(s, j, lit_close()) {
                    None => None,
                    Some(k) => if k == s.len() {
                        Some(ts)
                    } else {
                        None
                    },
                },
            },
        }
    }
}

// ---------------------------------------------------------------------------
// The verified parser
// ---------------------------------------------------------------------------
/// The characters of a string, as a vector.
fn str_chars(s: &str) -> (r: Vec<char>)
    ensures
        r@ == s@,
{
    let n = s.unicode_len();
    let mut v: Vec<char> = Vec::new();
    let mut k: usize = 0;
    proof {
        assert(v@ =~= s@.take(0));
    }
    while k < n
        invariant
            n == s@.len(),
            0 <= k <= n,
            v@ == s@.take(k as int),
        decreases n - k,
    {
        v.push(s.get_char(k));
        proof {
            assert(s@.take(k + 1) =~= s@.take(k as int).push(s@[k as int]));
        }
        k += 1;
    }
    proof {
        assert(s@.take(n as int) =~= s@);
    }
    v
}

/// Whether a character is a decimal digit.
fn is_digit_char(c: char) -> (r: bool)
    ensures
        r == is_digit(c),
{
    c == '0' || c == '1' || c == '2' || c == '3' || c == '4' || c == '5' || c == '6' || c == '7'
        || c == '8' || c == '9'
}

/// The value of a digit character.
fn digit_val(c: char) -> (r: u32)
    requires
        is_digit(c),
    ensures
        r == dval(c),
{
    match c {
        '0' => 0,
        '1' => 1,
        '2' => 2,
        '3' => 3,
        '4' => 4,
        '5' => 5,
        '6' => 6,
        '7' => 7,
        '8' => 8,
        _ => 9,
    }
}

/// Consumes the given literal at position `i`, if it stands there.
fn expect_lit(v: &Vec<char>, i: usize, lit: &str) -> (r: Option<usize>)
    ensures
        match r {
            Some(j) => p_lit(v@, i as int, lit@) == Some(j as int),
            None => p_lit(v@, i as int, lit@) is None,
        },
{
    let n = lit.unicode_len();
    let vn = v.len();
    if i > vn || n > vn - i {
        return None;
    }
    let mut k: usize = 0;
    while k < n
        invariant
            n == lit@.len(),
            0 <= k <= n,
            vn == v@.len(),
            i + n <= vn,
            forall|j: int| 0 <= j < k ==> v@[i + j] == lit@[j],
        decreases n - k,
    {
        if v[i + k] != lit.get_char(k) {
            proof {
                assert(v@.subrange(i as int, i + lit@.len())[k as int] == v@[i + k]);
            }
            return None;
        }
        k += 1;
    }
    proof {
        assert(v@.subrange(i as int, i + lit@.len()) =~= lit@);
    }
    Some(i + n)
}

/// Parses a string literal body up to and including the closing quote.
fn parse_string(v: &Vec<char>, i: usize) -> (r: Option<(String, usize)>)
    ensures
        match r {
            Some(p) => p_str(v@, i as int) == Some((p.0@, p.1 as int)) && i < p.1 <= v@.len(),
            None => p_str(v@, i as int) is None,
        },
    decreases v@.len() - i,
{
    if i >= v.len() {
        return None;
    }
    let c = v[i];
    if c == '"' {
        return Some((String::new(), i + 1));
    }
    if c == '\\' {
        if i + 1 >= v.len() {
            return None;
        }
        let e = v[i + 1];
        let dc: char;
        if e == '"' {
            dc = '"';
        } else if e == '\\' {
            dc = '\\';
        } else if e == 'n' {
            dc = '\n';
        } else if e == 't' {
            dc = '\t';
        } else if e == 'r' {
            dc = '\r';
        } else {
            return None;
        }
        match parse_string(v, i + 2) {
            Some(p) => {
                let (tail, j) = p;
                let mut s = String::new();
                push_char(&mut s, dc);
                s.append(tail.as_str());
                proof {
                    assert(s@ =~= seq![dc] + tail@);
                }
                return Some((s, j));
            },
            None => {
                return None;
            },
        }
    }
    match parse_string(v, i + 1) {
        Some(p) => {
            let (tail, j) = p;
            let mut s = String::new();
            push_char(&mut s, c);
            s.append(tail.as_str());
            proof {
                assert(s@ =~= seq![c] + tail@);
            }
            Some((s, j))
        },
        None => None,
    }
}

/// Digit-sequence values never go negative.
proof fn lemma_dseq_val_nonneg(ds: Seq<char>)
    ensures
        dseq_val(ds) >= 0,
    decreases ds.len(),
{
    if ds.len() > 0 {
        lemma_dseq_val_nonneg(ds.drop_last());
    }
}

/// Extending a digit run multiplies the value up: a prefix never exceeds
/// the whole.
proof fn lemma_dseq_val_prefix(s: Seq<char>, i: int, k: int, j: int)
    requires
        0 <= i <= k <= j <= s.len(),
    ensures
        dseq_val(s.subrange(i, k)) <= dseq_val(s.subrange(i, j)),
    decreases j - k,
{
    if k < j {
        lemma_dseq_val_prefix(s, i, k, j - 1);
        lemma_dseq_val_nonneg(s.subrange(i, j - 1));
        assert(s.subrange(i, j).drop_last() =~= s.subrange(i, j - 1));
    }
}

/// Parses a decimal number that fits in a `u32`.
fn parse_u32(v: &Vec<char>, i: usize) -> (r: Option<(u32, usize)>)
    ensures
        match r {
            Some(p) => p_num(v@, i as int) == Some((p.0, p.1 as int)) && i < p.1 <= v@.len(),
            None => p_num(v@, i as int) is None,
        },
{
    if i >= v.len() {
        return None;
    }
    let mut k: usize = i;
    let mut acc: u64 = 0;
    let mut overflow: bool = false;
    proof {
        assert(v@.subrange(i as int, i as int) =~= Seq::<char>::empty());
    }
    while k < v.len() && !overflow && is_digit_char(v[k])
        invariant
            i <= k <= v@.len(),
            forall|j: int| i <= j < k ==> is_digit(v@[j]),
            run_end(v@, i as int) == run_end(v@, k as int),
            !overflow ==> acc == dseq_val(v@.subrange(i as int, k as int)) && acc <= u32::MAX,
            overflow ==> p_num(v@, i as int) is None,
        decreases v@.len() - k,
    {
        let d = digit_val(v[k]);
        let na: u64 = acc * 10 + (d as u64);
        proof {
            assert(v@.subrange(i as int, k + 1).drop_last() =~= v@.subrange(i as int, k as int));
            assert(na == dseq_val(v@.subrange(i as int, k + 1)));
        }
        if na > (u32::MAX as u64) {
            overflow = true;
            proof {
                let j = run_end(v@, i as int);
                lemma_run_end_bounds(v@, k + 1);
                lemma_dseq_val_prefix(v@, i as int, k + 1, j);
            }
        } else {
            acc = na;
        }
        k += 1;
    }
    if overflow {
        return None;
    }
    if k == i {
        return None;
    }
    proof {
        assert(run_end(v@, k as int) == k);
    }
    Some((acc as u32, k))
}

/// A digit run ends within the sequence, no earlier than it starts.
proof fn lemma_run_end_bounds(s: Seq<char>, i: int)
    requires
        0 <= i <= s.len(),
    ensures
        i <= run_end(s, i) <= s.len(),
        forall|j: int| i <= j < run_end(s, i) ==> is_digit(#[trigger] s[j]),
    decreases s.len() - i,
{
    if i < s.len() && is_digit(s[i]) {
        lemma_run_end_bounds(s, i + 1);
    }
}

/// Parses one task object.
fn parse_task(v: &Vec<char>, i: usize) -> (r: Option<(Task, usize)>)
    ensures
        match r {
            Some(p) => p_task(v@, i as int) == Some((p.0@, p.1 as int)) && i < p.1 <= v@.len(),
            None => p_task(v@, i as int) is None,
        },
{
    let i1 = match expect_lit(v, i, "  {\"id\": ") {
        Some(j) => j,
        None => {
            return None;
        },
    };
    let (id, i2) = match parse_u32(v, i1) {
        Some(p) => p,
        None => {
            return None;
        },
    };
    let i3 = match expect_lit(v, i2, ", \"description\": \"") {
        Some(j) => j,
        None => {
            return None;
        },
    };
    let (descr, i4) = match parse_string(v, i3) {
        Some(p) => p,
        None => {
            return None;
        },
    };
    let i5 = match expect_lit(v, i4, ", \"status\": \"") {
        Some(j) => j,
        None => {
            return None;
        },
    };
    let (sname, i6) = match parse_string(v, i5) {
        Some(p) => p,
        None => {
            return None;
        },
    };
    let st = match Status::from_name(sname.as_str()) {
        Some(st) => st,
        None => {
            return None;
        },
    };
    let i7 = match expect_lit(v, i6, ", \"created_at\": \"") {
        Some(j) => j,
        None => {
            return None;
        },
    };
    let (ca, i8) = match parse_string(v, i7) {
        Some(p) => p,
        None => {
            return None;
        },
    };
    let i9 = match expect_lit(v, i8, ", \"updated_at\": \"") {
        Some(j) => j,
        None => {
            return None;
        },
    };
    let (ua, i10) = match parse_string(v, i9) {
        Some(p) => p,
        None => {
            return None;
        },
    };
    let i11 = match expect_lit(v, i10, "}") {
        Some(j) => j,
        None => {
            return None;
        },
    };
    Some((Task { id, description: descr, status: st, created_at: ca, updated_at: ua }, i11))
}

/// Parses one or more task objects joined by the separator.
fn parse_tasks(v: &Vec<char>, i: usize, fuel: usize) -> (r: Option<(Vec<Task>, usize)>)
    ensures
        match r {
            Some(p) => p_tasks(v@, i as int, fuel as nat) == Some(
                (task_views(p.0@), p.1 as int),
            ) && i < p.1 <= v@.len(),
            None => p_tasks(v@, i as int, fuel as nat) is None,
        },
    decreases fuel,
{
    if fuel == 0 {
        return None;
    }
    let (t, j) = match parse_task(v, i) {
        Some(p) => p,
        None => {
            return None;
        },
    };
    match expect_lit(v, j, ",\n") {
        None => {
            let mut out: Vec<Task> = Vec::new();
            out.push(t);
            proof {
                assert(task_views(out@) =~= seq![t@]);
            }
            Some((out, j))
        },
        Some(j2) => {
            match parse_tasks(v, j2, fuel - 1) {
                None => None,
                Some(p) => {
                    let (mut ts, k) = p;
                    let ghost prev = ts@;
                    ts.insert(0, t);
                    proof {
                        assert(task_views(ts@) =~= seq![t@] + task_views(prev));
                    }
                    Some((ts, k))
                },
            }
        },
    }
}

/// Checks the store invariant: ids unique and positive.
fn ids_ok(tasks: &Vec<Task>) -> (r: bool)
    ensures
        r == wf_tasks(task_views(tasks@)),
{
    let n = tasks.len();
    let mut k: usize = 0;
    while k < n
        invariant
            0 <= k <= n,
            n == tasks@.len(),
            forall|a: int| 0 <= a < k ==> task_views(tasks@)[a].id >= 1,
            forall|a: int, b: int|
                0 <= a < b < k ==> task_views(tasks@)[a].id != task_views(tasks@)[b].id,
        decreases n - k,
    {
        if tasks[k].id < 1 {
            proof {
                assert(task_views(tasks@)[k as int].id == tasks@[k as int]@.id);
                assert(!ids_positive(task_views(tasks@)));
            }
            return false;
        }
        let mut j: usize = 0;
        while j < k
            invariant
                0 <= j <= k < n,
                n == tasks@.len(),
                forall|a: int| 0 <= a < j ==> task_views(tasks@)[a].id != task_views(tasks@)[
                    k as int
                ].id,
            decreases k - j,
        {
            if tasks[j].id == tasks[k].id {
                proof {
                    assert(task_views(tasks@)[j as int].id == task_views(tasks@)[k as int].id);
                    assert(!ids_unique(task_views(tasks@)));
                }
                return false;
            }
            j += 1;
        }
        k += 1;
    }
    true
}

impl TaskStore {
    /// Parses a whole document back into a store. Returns `None` both for a
    /// document that does not parse and for one whose tasks break the store
    /// invariant (duplicate or non-positive ids).
    pub fn from_json(s: &str) -> (r: Option<TaskStore>)
        ensures
            match r {
                Some(st) => st.wf() && decode(s@) == Some(st@),
                None => decode(s@) is None || (decode(s@) matches Some(ts) && !wf_tasks(ts)),
            },
    {
        let v = str_chars(s);
        let empty_end = expect_lit(&v, 0, "[]\n");
        match empty_end {
            Some(j) => {
                if j == v.len() {
                    proof {
                        assert(s@ =~= lit_empty());
                    }
                    let st = TaskStore::new();
                    return Some(st);
                }
            },
            None => {},
        }
        proof {
            assert(s@ != lit_empty()) by {
                if s@ == lit_empty() {
                    assert(v@.subrange(0, lit_empty().len() as int) =~= lit_empty());
                }
            }
        }
        let i = match expect_lit(&v, 0, "[\n") {
            Some(i) => i,
            None => {
                return None;
            },
        };
        let (ts, j) = match parse_tasks(&v, i, v.len()) {
            Some(p) => p,
            None => {
                return None;
            },
        };
        let k = match expect_lit(&v, j, "\n]\n") {
            Some(k) => k,
            None => {
                return None;
            },
        };
        if k != v.len() {
            return None;
        }
        if !ids_ok(&ts) {
            return None;
        }
        Some(TaskStore { tasks: ts })
    }
}

// ---------------------------------------------------------------------------
// Round trip: parsing an encoded store yields that store
// ---------------------------------------------------------------------------
/// Splits a known suffix `a + b` at the end of `a`.
proof fn lemma_chunk(v: Seq<char>, i: int, a: Seq<char>, b: Seq<char>)
    requires
        0 <= i <= v.len(),
        v.subrange(i, v.len() as int) == a + b,
    ensures
        i + a.len() <= v.len(),
        v.subrange(i, i + a.len()) == a,
        v.subrange(i + a.len(), v.len() as int) == b,
{
    assert(v.subrange(i, v.len() as int).len() == a.len() + b.len());
    assert(v.subrange(i, i + a.len()) =~= a) by {
        assert forall|k: int| 0 <= k < a.len() implies v.subrange(i, i + a.len())[k] == a[k] by {
            assert(v.subrange(i, v.len() as int)[k] == (a + b)[k]);
        }
    }
    assert(v.subrange(i + a.len(), v.len() as int) =~= b) by {
        assert forall|k: int|
            0 <= k < b.len() implies v.subrange(i + a.len(), v.len() as int)[k] == b[k] by {
            assert(v.subrange(i, v.len() as int)[a.len() + k] == (a + b)[a.len() + k]);
            assert(v.subrange(i, v.len() as int)[a.len() + k] == v[i + a.len() + k]);
            assert(v.subrange(i + a.len(), v.len() as int)[k] == v[i + a.len() + k]);
            assert((a + b)[a.len() + k] == b[k]);
        }
    }
}

/// Where the suffix is a literal followed by anything, the literal parses.
proof fn lemma_p_lit_enc(v: Seq<char>, i: int, lit: Seq<char>, rest: Seq<char>)
    requires
        0 <= i <= v.len(),
        v.subrange(i, v.len() as int) == lit + rest,
    ensures
        p_lit(v, i, lit) == Some(i + lit.len()),
        v.subrange(i + lit.len(), v.len() as int) == rest,
{
    lemma_chunk(v, i, lit, rest);
}

/// Where the suffix is an escaped string, the closing quote and anything,
/// the string parser recovers exactly the original content.
proof fn lemma_p_str_enc(v: Seq<char>, i: int, t: Seq<char>, rest: Seq<char>)
    requires
        0 <= i <= v.len(),
        v.subrange(i, v.len() as int) == esc(t) + qt() + rest,
    ensures
        p_str(v, i) == Some((t, i + esc(t).len() + 1)),
        v.subrange(i + esc(t).len() + 1, v.len() as int) == rest,
    decreases t.len(),
{
    if t.len() == 0 {
        assert(esc(t) =~= Seq::<char>::empty());
        assert(esc(t) + qt() + rest =~= qt() + rest);
        lemma_chunk(v, i, qt(), rest);
        assert(v[i] == '"') by {
            assert(v.subrange(i, i + 1)[0] == v[i]);
        }
        assert(p_str(v, i) == Some((Seq::<char>::empty(), i + 1)));
        assert(t =~= Seq::<char>::empty());
    } else {
        let c = t[0];
        let t2 = t.drop_first();
        assert(t =~= seq![c] + t2);
        lemma_esc_concat(seq![c], t2);
        lemma_esc_one(c);
        let ec = esc_char(c);
        assert(esc(t) == ec + esc(t2));
        let tail = esc(t2) + qt() + rest;
        assert(v.subrange(i, v.len() as int) =~= ec + tail);
        lemma_chunk(v, i, ec, tail);
        let i2 = i + ec.len();
        assert(v.subrange(i2, v.len() as int) =~= esc(t2) + qt() + rest);
        if c == '"' || c == '\\' || c == '\n' || c == '\t' || c == '\r' {
            assert(ec.len() == 2);
            assert(v[i] == ec[0]) by {
                assert(v.subrange(i, i + 2)[0] == v[i]);
            }
            assert(v[i + 1] == ec[1]) by {
                assert(v.subrange(i, i + 2)[1] == v[i + 1]);
            }
            assert(v[i] == '\\');
            lemma_p_str_enc(v, i + 2, t2, rest);
            assert(p_str(v, i) == Some((seq![c] + t2, i2 + esc(t2).len() + 1)));
            assert(seq![c] + t2 =~= t);
        } else {
            assert(ec =~= seq![c]);
            assert(v[i] == c) by {
                assert(v.subrange(i, i + 1)[0] == v[i]);
            }
            lemma_p_str_enc(v, i + 1, t2, rest);
            assert(p_str(v, i) == Some((seq![c] + t2, i2 + esc(t2).len() + 1)));
            assert(seq![c] + t2 =~= t);
        }
    }
}

/// Decimal spellings are non-empty and all digits.
proof fn lemma_dec_digits(n: nat)
    ensures
        dec(n).len() >= 1,
        forall|k: int| 0 <= k < dec(n).len() ==> is_digit(#[trigger] dec(n)[k]),
    decreases n,
{
    if n >= 10 {
        lemma_dec_digits(n / 10);
        assert(forall|k: int|
            0 <= k < dec(n).len() - 1 ==> dec(n)[k] == dec(n / 10)[k]);
    }
}

/// The value of a decimal spelling is the number itself.
proof fn lemma_dec_val(n: nat)
    ensures
        dseq_val(dec(n)) == n,
    decreases n,
{
    if n < 10 {
        assert(dec(n).len() == 1);
        assert(dec(n).drop_last() =~= Seq::<char>::empty());
        assert(dseq_val(Seq::<char>::empty()) == 0);
        assert(dec(n).last() == d_char(n as int));
        assert(dval(d_char(n as int)) == n);
        assert(dseq_val(dec(n)) == dseq_val(dec(n).drop_last()) * 10 + dval(dec(n).last()));
    } else {
        lemma_dec_val(n / 10);
        assert(dec(n).drop_last() =~= dec(n / 10));
        assert(dec(n).last() == d_char((n % 10) as int));
        assert(dval(d_char((n % 10) as int)) == n % 10);
    }
}

/// A block of digits bounded by a non-digit is exactly one run.
proof fn lemma_run_end_exact(s: Seq<char>, i: int, j: int)
    requires
        0 <= i <= j <= s.len(),
        forall|k: int| i <= k < j ==> is_digit(#[trigger] s[k]),
        j == s.len() || !is_digit(s[j]),
    ensures
        run_end(s, i) == j,
    decreases j - i,
{
    if i < j {
        lemma_run_end_exact(s, i + 1, j);
    }
}

/// Where the suffix is a decimal spelling followed by a non-digit, the
/// number parser recovers exactly the original number.
proof fn lemma_p_num_enc(v: Seq<char>, i: int, n: u32, rest: Seq<char>)
    requires
        0 <= i <= v.len(),
        v.subrange(i, v.len() as int) == dec(n as nat) + rest,
        rest.len() >= 1,
        !is_digit(rest[0]),
    ensures
        p_num(v, i) == Some((n, i + dec(n as nat).len())),
        v.subrange(i + dec(n as nat).len(), v.len() as int) == rest,
{
    let d = dec(n as nat);
    lemma_chunk(v, i, d, rest);
    let j = i + d.len();
    lemma_dec_digits(n as nat);
    assert forall|k: int| i <= k < j implies is_digit(#[trigger] v[k]) by {
        assert(v.subrange(i, j)[k - i] == v[k]);
    }
    assert(v[j] == rest[0]) by {
        assert(v.subrange(j, v.len() as int)[0] == v[j]);
    }
    lemma_run_end_exact(v, i, j);
    assert(v.subrange(i, j) == d);
    lemma_dec_val(n as nat);
}

/// The three status spellings pass through escaping unchanged, are valid,
/// and parse back to the status they name.
proof fn lemma_status_name_facts(st: Status)
    ensures
        esc(status_name(st)) == status_name(st),
        valid_status(status_name(st)),
        status_of(status_name(st)) == st,
{
    crate::task::lemma_status_names_distinct();
    reveal_strlit("todo");
    reveal_strlit("in-progress");
    reveal_strlit("done");
    match st {
        Status::Todo => {
            assert(forall|k: int| 0 <= k < "todo"@.len() ==> !needs_esc(#[trigger] "todo"@[k]));
            lemma_esc_plain("todo"@);
        },
        Status::InProgress => {
            assert(forall|k: int|
                0 <= k < "in-progress"@.len() ==> !needs_esc(#[trigger] "in-progress"@[k]));
            lemma_esc_plain("in-progress"@);
        },
        Status::Done => {
            assert(forall|k: int| 0 <= k < "done"@.len() ==> !needs_esc(#[trigger] "done"@[k]));
            lemma_esc_plain("done"@);
        },
    }
}

/// Where the suffix is an encoded task followed by anything, the task
/// parser recovers exactly the original task.
proof fn lemma_p_task_enc(v: Seq<char>, i: int, t: TaskV, rest: Seq<char>)
    requires
        0 <= i <= v.len(),
        v.subrange(i, v.len() as int) == enc_task(t) + rest,
    ensures
        p_task(v, i) == Some((t, i + enc_task(t).len())),
        v.subrange(i + enc_task(t).len(), v.len() as int) == rest,
{
    reveal_strlit(", \"description\": \"");
    let d1 = dec(t.id as nat);
    let e4 = esc(t.description);
    let n7 = status_name(t.status);
    let e10 = esc(t.created_at);
    let e13 = esc(t.updated_at);
    let t14 = lit_end_obj() + rest;
    let t13 = qt() + t14;
    let t12 = e13 + t13;
    let t11 = lit_updated() + t12;
    let t10 = qt() + t11;
    let t9 = e10 + t10;
    let t8 = lit_created() + t9;
    let t7 = qt() + t8;
    let t6 = n7 + t7;
    let t5 = lit_status() + t6;
    let t4 = qt() + t5;
    let t3 = e4 + t4;
    let t2 = lit_desc() + t3;
    let t1 = d1 + t2;
    let t0 = lit_id() + t1;
    assert(v.subrange(i, v.len() as int) == t0) by {
        let p01 = lit_id();
        let p02 = p01 + d1;
        let p03 = p02 + lit_desc();
        let p04 = p03 + e4;
        let p05 = p04 + qt();
        let p06 = p05 + lit_status();
        let p07 = p06 + n7;
        let p08 = p07 + qt();
        let p09 = p08 + lit_created();
        let p10 = p09 + e10;
        let p11 = p10 + qt();
        let p12 = p11 + lit_updated();
        let p13 = p12 + e13;
        let p14 = p13 + qt();
        assert(enc_task(t) == p14 + lit_end_obj());
        vstd::seq_lib::lemma_concat_associative(p14, lit_end_obj(), rest);
        vstd::seq_lib::lemma_concat_associative(p13, qt(), t14);
        vstd::seq_lib::lemma_concat_associative(p12, e13, t13);
        vstd::seq_lib::lemma_concat_associative(p11, lit_updated(), t12);
        vstd::seq_lib::lemma_concat_associative(p10, qt(), t11);
        vstd::seq_lib::lemma_concat_associative(p09, e10, t10);
        vstd::seq_lib::lemma_concat_associative(p08, lit_created(), t9);
        vstd::seq_lib::lemma_concat_associative(p07, qt(), t8);
        vstd::seq_lib::lemma_concat_associative(p06, n7, t7);
        vstd::seq_lib::lemma_concat_associative(p05, lit_status(), t6);
        vstd::seq_lib::lemma_concat_associative(p04, qt(), t5);
        vstd::seq_lib::lemma_concat_associative(p03, e4, t4);
        vstd::seq_lib::lemma_concat_associative(p02, lit_desc(), t3);
        vstd::seq_lib::lemma_concat_associative(p01, d1, t2);
    }
    lemma_p_lit_enc(v, i, lit_id(), t1);
    let i1 = i + lit_id().len();
    assert(t2[0] == lit_desc()[0]);
    assert(!is_digit(t2[0]));
    lemma_p_num_enc(v, i1, t.id, t2);
    let i2 = i1 + d1.len();
    lemma_p_lit_enc(v, i2, lit_desc(), t3);
    let i3 = i2 + lit_desc().len();
    vstd::seq_lib::lemma_concat_associative(e4, qt(), t5);
    lemma_p_str_enc(v, i3, t.description, t5);
    let i4 = i3 + e4.len() + 1;
    lemma_p_lit_enc(v, i4, lit_status(), t6);
    let i5 = i4 + lit_status().len();
    lemma_status_name_facts(t.status);
    vstd::seq_lib::lemma_concat_associative(n7, qt(), t8);
    lemma_p_str_enc(v, i5, n7, t8);
    let i6 = i5 + n7.len() + 1;
    lemma_p_lit_enc(v, i6, lit_created(), t9);
    let i7 = i6 + lit_created().len();
    vstd::seq_lib::lemma_concat_associative(e10, qt(), t11);
    lemma_p_str_enc(v, i7, t.created_at, t11);
    let i8 = i7 + e10.len() + 1;
    lemma_p_lit_enc(v, i8, lit_updated(), t12);
    let i9 = i8 + lit_updated().len();
    vstd::seq_lib::lemma_concat_associative(e13, qt(), t14);
    lemma_p_str_enc(v, i9, t.updated_at, t14);
    let i10 = i9 + e13.len() + 1;
    lemma_p_lit_enc(v, i10, lit_end_obj(), rest);
    let i11 = i10 + lit_end_obj().len();
    assert(i11 == i + enc_task(t).len());
    assert(p_task(v, i) == Some((t, i11)));
}

/// Encoded lists are at least as long as the number of tasks they encode.
proof fn lemma_enc_list_len(ts: Seq<TaskV>)
    ensures
        enc_list(ts).len() >= ts.len(),
    decreases ts.len(),
{
    reveal_strlit("  {\"id\": ");
    if ts.len() >= 2 {
        lemma_enc_list_len(ts.drop_first());
    }
}

/// Where the suffix is an encoded task list followed by something that is
/// not a separator, the list parser recovers exactly the original tasks.
proof fn lemma_p_tasks_enc(v: Seq<char>, i: int, ts: Seq<TaskV>, rest: Seq<char>, fuel: nat)
    requires
        0 <= i <= v.len(),
        ts.len() >= 1,
        fuel >= ts.len(),
        v.subrange(i, v.len() as int) == enc_list(ts) + rest,
        rest.len() >= 1,
        rest[0] != ',',
    ensures
        p_tasks(v, i, fuel) == Some((ts, i + enc_list(ts).len())),
        v.subrange(i + enc_list(ts).len(), v.len() as int) == rest,
    decreases ts.len(),
{
    reveal_strlit(",\n");
    let t = ts[0];
    if ts.len() == 1 {
        assert(enc_list(ts) == enc_task(t));
        lemma_p_task_enc(v, i, t, rest);
        let j = i + enc_task(t).len();
        assert(p_lit(v, j, lit_sep()) is None) by {
            if p_lit(v, j, lit_sep()) is Some {
                assert(v.subrange(j, j + lit_sep().len()) == lit_sep());
                assert(v.subrange(j, j + lit_sep().len())[0] == v[j]);
                assert(v[j] == rest[0]) by {
                    assert(v.subrange(j, v.len() as int)[0] == v[j]);
                }
            }
        }
        assert(seq![t] =~= ts);
    } else {
        let ts2 = ts.drop_first();
        let tail = lit_sep() + (enc_list(ts2) + rest);
        assert(v.subrange(i, v.len() as int) =~= enc_task(t) + tail);
        lemma_p_task_enc(v, i, t, tail);
        let j = i + enc_task(t).len();
        lemma_p_lit_enc(v, j, lit_sep(), enc_list(ts2) + rest);
        let j2 = j + lit_sep().len();
        lemma_p_tasks_enc(v, j2, ts2, rest, (fuel - 1) as nat);
        assert(seq![t] + ts2 =~= ts);
    }
}

/// Round trip: parsing an encoded store yields exactly that store,
/// field for field and in order, for every collection of tasks.
pub proof fn lemma_round_trip(ts: Seq<TaskV>)
    ensures
        decode(encode(ts)) == Some(ts),
{
    let s = encode(ts);
    if ts.len() == 0 {
        assert(ts =~= Seq::<TaskV>::empty());
    } else {
        reveal_strlit("[\n");
        reveal_strlit("[]\n");
        reveal_strlit("\n]\n");
        lemma_enc_list_len(ts);
        assert(s.len() == lit_open().len() + enc_list(ts).len() + lit_close().len());
        assert(s.len() >= 6);
        assert(s != lit_empty());
        assert(s.subrange(0, s.len() as int) =~= lit_open() + (enc_list(ts) + lit_close()));
        lemma_p_lit_enc(s, 0, lit_open(), enc_list(ts) + lit_close());
        let i = lit_open().len() as int;
        lemma_p_tasks_enc(s, i, ts, lit_close(), s.len());
        let j = i + enc_list(ts).len();
        assert(s.subrange(j, s.len() as int) =~= lit_close() + Seq::<char>::empty());
        lemma_p_lit_enc(s, j, lit_close(), Seq::<char>::empty());
        assert(j + lit_close().len() == s.len());
    }
}

} // verus!
