//! Fixed-column record extraction from structural annotation text.
//!
//! A structural file is a header followed by a marker line (first
//! whitespace-delimited token `#`) and then one residue per line. The
//! byte offsets are a wire-format contract: residue number in columns
//! 5..10, chain label at column 11, residue letter at column 13,
//! secondary-structure code at column 16 (blank normalized to `C`),
//! beta data in columns 29..33 and at column 33. Lines are handled as
//! raw bytes; the format is ASCII.
//!
//! The extractor is a two-state machine (header-scan, residue-active).
//! A chain-label change flushes the accumulated chain as a record; a
//! numbering discontinuity discards the accumulation and everything
//! after it up to the next label change. `first_res` carries `-999`
//! when no residue was captured and `-998` after a discontinuity.

use vstd::prelude::*;

verus! {

/// ASCII whitespace, as a token separator.
pub open spec fn is_ws(c: u8) -> bool {
    c == 32 || (9 <= c && c <= 13)
}

/// A sequence with every ASCII whitespace byte removed.
pub open spec fn strip_ws_spec(s: Seq<u8>) -> Seq<u8> {
    s.filter(|c: u8| !is_ws(c))
}

/// The sequence after its leading whitespace.
pub open spec fn skip_ws(s: Seq<u8>) -> Seq<u8>
    decreases s.len(),
{
    if s.len() > 0 && is_ws(s[0]) {
        skip_ws(s.drop_first())
    } else {
        s
    }
}

/// The line's first whitespace-delimited token is exactly `#`.
pub open spec fn is_marker_line(l: Seq<u8>) -> bool {
    let t = skip_ws(l);
    t.len() > 0 && t[0] == 35 && (t.len() == 1 || is_ws(t[1]))
}

/// The line holds a chain-break marker `!` anywhere.
pub open spec fn has_break_marker(l: Seq<u8>) -> bool {
    exists|i: int| 0 <= i < l.len() && l[i] == 33
}

/// An ASCII decimal digit.
pub open spec fn is_digit(c: u8) -> bool {
    48 <= c && c <= 57
}

pub open spec fn all_digits(s: Seq<u8>) -> bool {
    forall|i: int| 0 <= i < s.len() ==> is_digit(#[trigger] s[i])
}

/// The value of a digit string read as a decimal number.
pub open spec fn dec_val(s: Seq<u8>) -> int
    decreases s.len(),
{
    if s.len() == 0 {
        0
    } else {
        dec_val(s.drop_last()) * 10 + (s.last() - 48)
    }
}

/// What `str::parse::<i32>` accepts: an optional sign, then one or more
/// digits, with the value within the `i32` range.
pub open spec fn parse_i32_spec(s: Seq<u8>) -> Option<i32> {
    let neg = s.len() > 0 && s[0] == 45;
    let ds = if s.len() > 0 && (s[0] == 43 || s[0] == 45) {
        s.drop_first()
    } else {
        s
    };
    if ds.len() == 0 || !all_digits(ds) {
        Option::None
    } else {
        let v: int = if neg {
            -dec_val(ds)
        } else {
            dec_val(ds)
        };
        if i32::MIN <= v && v <= i32::MAX {
            Option::Some(v as i32)
        } else {
            Option::None
        }
    }
}

proof fn lemma_dec_val_nonneg(s: Seq<u8>)
    requires
        all_digits(s),
    ensures
        dec_val(s) >= 0,
    decreases s.len(),
{
    if s.len() > 0 {
        assert(forall|i: int| 0 <= i < s.drop_last().len() ==> s.drop_last()[i] == s[i]);
        lemma_dec_val_nonneg(s.drop_last());
    }
}

proof fn lemma_dec_val_prefix(s: Seq<u8>, k: int)
    requires
        all_digits(s),
        0 <= k <= s.len(),
    ensures
        dec_val(s.take(k)) <= dec_val(s),
    decreases s.len() - k,
{
    if k < s.len() {
        assert(forall|i: int| 0 <= i < s.drop_last().len() ==> s.drop_last()[i] == s[i]);
        lemma_dec_val_prefix(s.drop_last(), k);
        assert(s.drop_last().take(k) =~= s.take(k));
        lemma_dec_val_nonneg(s.drop_last());
    } else {
        assert(s.take(k) =~= s);
    }
}

/// Parse a digit string (optional sign) as an `i32`, exactly as
/// `str::parse::<i32>` classifies it: `None` on an empty string, a
/// stray character, or a value out of range.
pub fn parse_res_i32(s: &Vec<u8>) -> (r: Option<i32>)
    ensures
        r == parse_i32_spec(s@),
{
    let ghost sq = s@;
    let mut start: usize = 0;
    let mut neg = false;
    if s.len() > 0 && (s[0] == 43 || s[0] == 45) {
        neg = s[0] == 45;
        start = 1;
    }
    let ghost ds = sq.skip(start as int);
    proof {
        if sq.len() > 0 && (sq[0] == 43 || sq[0] == 45) {
            assert(ds =~= sq.drop_first());
        } else {
            assert(ds =~= sq);
        }
    }
    if start == s.len() {
        return None;
    }
    let limit: u64 = if neg {
        2147483648
    } else {
        2147483647
    };
    let mut acc: u64 = 0;
    let mut j: usize = start;
    proof {
        assert(ds.take(0) =~= Seq::<u8>::empty());
    }
    while j < s.len()
        invariant
            start <= j <= s@.len(),
            start < s@.len(),
            ds == s@.skip(start as int),
            all_digits(ds.take(j - start)),
            acc == dec_val(ds.take(j - start)),
            acc <= limit,
            limit == if neg {
                2147483648u64
            } else {
                2147483647u64
            },
            neg == (s@.len() > 0 && s@[0] == 45),
            start == (if s@.len() > 0 && (s@[0] == 43 || s@[0] == 45) {
                1int
            } else {
                0int
            }),
        decreases s@.len() - j,
    {
        let c = s[j];
        proof {
            assert(j < s@.len());
            assert(ds == s@.subrange(start as int, s@.len() as int));
            assert(ds[j - start] == s@[j as int]);
        }
        if c < 48 || c > 57 {
            proof {
                assert(!is_digit(ds[j - start]));
            }
            return None;
        }
        let ghost pre = ds.take(j - start);
        acc = acc * 10 + ((c - 48) as u64);
        j = j + 1;
        proof {
            assert(ds.take(j - start).drop_last() =~= pre);
            assert(ds.take(j - start).last() == c);
            assert(forall|i: int|
                0 <= i < j - start ==> ds.take(j - start)[i] == #[trigger] ds[i]);
        }
        if acc > limit {
            proof {
                if s@.len() > 0 && (s@[0] == 43 || s@[0] == 45) {
                    assert(ds =~= s@.drop_first());
                } else {
                    assert(ds =~= s@);
                }
                if all_digits(ds) {
                    lemma_dec_val_prefix(ds, j - start);
                    assert(dec_val(ds) >= acc);
                    assert(dec_val(ds) > limit);
                    if neg {
                        assert(-dec_val(ds) < i32::MIN);
                    } else {
                        assert(dec_val(ds) > i32::MAX);
                    }
                    assert(parse_i32_spec(s@) is None);
                } else {
                    assert(parse_i32_spec(s@) is None);
                }
            }
            return None;
        }
    }
    proof {
        assert(ds.take(j - start) =~= ds);
    }
    if neg {
        if acc == 2147483648 {
            Some(i32::MIN)
        } else {
            Some(0i32 - (acc as i32))
        }
    } else {
        Some(acc as i32)
    }
}

/// The whitespace-stripped bytes of `line[from..to]`.
pub fn substr_no_ws(line: &Vec<u8>, from: usize, to: usize) -> (r: Vec<u8>)
    requires
        from <= to <= line@.len(),
    ensures
        r@ == strip_ws_spec(line@.subrange(from as int, to as int)),
{
    let mut out: Vec<u8> = Vec::new();
    proof {
        reveal_with_fuel(Seq::<_>::filter, 1);
        assert(line@.subrange(from as int, from as int) =~= Seq::<u8>::empty());
    }
    let mut i: usize = from;
    while i < to
        invariant
            from <= i <= to <= line@.len(),
            out@ == strip_ws_spec(line@.subrange(from as int, i as int)),
        decreases to - i,
    {
        let ghost pre = line@.subrange(from as int, i as int);
        let c = line[i];
        if !(c == 32 || (c >= 9 && c <= 13)) {
            out.push(c);
        }
        i = i + 1;
        proof {
            reveal_with_fuel(Seq::<_>::filter, 2);
            assert(line@.subrange(from as int, i as int).drop_last() =~= pre);
            assert(line@.subrange(from as int, i as int).last() == c);
        }
    }
    out
}

/// The residue number (columns 5..10, whitespace removed, decimal) and
/// the residue letter (column 13); `None` on a short line or an
/// unparsable number.
pub open spec fn res_num_name_spec(l: Seq<u8>) -> Option<(i32, u8)> {
    if l.len() < 14 {
        Option::None
    } else {
        match parse_i32_spec(strip_ws_spec(l.subrange(5, 10))) {
            Option::None => Option::None,
            Option::Some(n) => Option::Some((n, l[13])),
        }
    }
}

pub fn get_res_num_name(line: &Vec<u8>) -> (r: Option<(i32, u8)>)
    ensures
        r == res_num_name_spec(line@),
{
    if line.len() < 14 {
        return None;
    }
    let digits = substr_no_ws(line, 5, 10);
    match parse_res_i32(&digits) {
        None => None,
        Some(n) => Some((n, line[13])),
    }
}

/// The chain label at column 11; `None` on a short line.
pub open spec fn chain_for_spec(l: Seq<u8>) -> Option<u8> {
    if l.len() < 12 {
        Option::None
    } else {
        Option::Some(l[11])
    }
}

pub fn get_chain_for(line: &Vec<u8>) -> (r: Option<u8>)
    ensures
        r == chain_for_spec(line@),
{
    if line.len() < 12 {
        None
    } else {
        Some(line[11])
    }
}

/// The secondary-structure code at column 16, a blank normalized to the
/// default code `C`; `None` on a short line.
pub open spec fn ss_for_spec(l: Seq<u8>) -> Option<u8> {
    if l.len() < 17 {
        Option::None
    } else if l[16] == 32 {
        Option::Some(67u8)
    } else {
        Option::Some(l[16])
    }
}

pub fn get_ss_for(line: &Vec<u8>) -> (r: Option<u8>)
    ensures
        r == ss_for_spec(line@),
{
    if line.len() < 17 {
        None
    } else if line[16] == 32 {
        Some(67)
    } else {
        Some(line[16])
    }
}

/// The residue number, the beta-pair number (columns 29..33) and the
/// beta-sheet label (column 33); `None` on a short line or an
/// unparsable number.
pub open spec fn beta_data_spec(l: Seq<u8>) -> Option<(i32, i32, u8)> {
    if l.len() < 34 {
        Option::None
    } else {
        match parse_i32_spec(strip_ws_spec(l.subrange(5, 10))) {
            Option::None => Option::None,
            Option::Some(n) => match parse_i32_spec(strip_ws_spec(l.subrange(29, 33))) {
                Option::None => Option::None,
                Option::Some(bp) => Option::Some((n, bp, l[33])),
            },
        }
    }
}

/// One extracted chain: identity (file code plus one chain-label byte),
/// first residue number (`-999` none captured, `-998` discontinuity),
/// and the paired residue-letter / secondary-structure sequences.
#[derive(Debug, PartialEq, Eq)]
pub struct ChainRecord {
    pub chain_id: Vec<u8>,
    pub first_res: i32,
    pub res: Vec<u8>,
    pub ss: Vec<u8>,
}

/// The mathematical shape of a chain record.
pub ghost struct RecView {
    pub chain_id: Seq<u8>,
    pub first_res: int,
    pub res: Seq<u8>,
    pub ss: Seq<u8>,
}

impl View for ChainRecord {
    type V = RecView;

    open spec fn view(&self) -> RecView {
        RecView {
            chain_id: self.chain_id@,
            first_res: self.first_res as int,
            res: self.res@,
            ss: self.ss@,
        }
    }
}

/// Where the residue numbering stands: nothing captured yet for this
/// chain, broken by a discontinuity, or at the given number.
pub enum ResCursor {
    Fresh,
    Broken,
    At(i32),
}

/// The numbering cursor, in the machine's model.
pub ghost enum CurPos {
    Fresh,
    Broken,
    At(int),
}

pub open spec fn abs_cursor(c: ResCursor) -> CurPos {
    match c {
        ResCursor::Fresh => CurPos::Fresh,
        ResCursor::Broken => CurPos::Broken,
        ResCursor::At(n) => CurPos::At(n as int),
    }
}

/// A fatal extraction fault: a residue-active line too short for its
/// fixed columns, or a residue-number field that is not a number.
#[derive(PartialEq, Eq, Structural, Clone, Copy, Debug)]
pub enum ExtractError {
    ShortLine,
    BadResidueNumber,
}

/// The extractor's whole state between lines.
pub ghost struct MState {
    pub active: bool,
    pub chain: u8,
    pub cur: CurPos,
    pub first: int,
    pub res: Seq<u8>,
    pub ss: Seq<u8>,
    pub out: Seq<RecView>,
}

pub open spec fn init_state() -> MState {
    MState {
        active: false,
        chain: 32,
        cur: CurPos::Fresh,
        first: -999,
        res: seq![],
        ss: seq![],
        out: seq![],
    }
}

/// The record flushed from an accumulation, tagged with the file code
/// and the current chain label.
pub open spec fn flush_rec(st: MState, code: Seq<u8>) -> RecView {
    RecView { chain_id: code + seq![st.chain], first_res: st.first, res: st.res, ss: st.ss }
}

/// Accumulate one residue: read the secondary structure, lock the first
/// residue number, and extend both sequences.
pub open spec fn step_accum(st: MState, l: Seq<u8>, num: i32, resch: u8) -> Result<
    MState,
    ExtractError,
> {
    match ss_for_spec(l) {
        Option::None => Result::Err(ExtractError::ShortLine),
        Option::Some(ssc) => Result::Ok(
            MState {
                active: st.active,
                chain: st.chain,
                cur: CurPos::At(num as int),
                first: if st.first == -999 {
                    num as int
                } else {
                    st.first
                },
                res: st.res.push(resch),
                ss: st.ss.push(ssc),
                out: st.out,
            },
        ),
    }
}

/// One line of the state machine. In header-scan, only the marker line
/// changes anything. In residue-active: a break-marker line is skipped;
/// a chain-label change flushes the accumulation; a numbering gap
/// discards it and enters the broken state, which discards residues
/// until the next label change.
pub open spec fn step(st: MState, l: Seq<u8>, code: Seq<u8>) -> Result<MState, ExtractError> {
    if !st.active {
        if is_marker_line(l) {
            Result::Ok(
                MState {
                    active: true,
                    chain: st.chain,
                    cur: st.cur,
                    first: st.first,
                    res: st.res,
                    ss: st.ss,
                    out: st.out,
                },
            )
        } else {
            Result::Ok(st)
        }
    } else if has_break_marker(l) {
        Result::Ok(st)
    } else {
        match chain_for_spec(l) {
            Option::None => Result::Err(ExtractError::ShortLine),
            Option::Some(c) => {
                let st1 = if c != st.chain && st.chain != 32 {
                    MState {
                        active: st.active,
                        chain: c,
                        cur: CurPos::Fresh,
                        first: -999,
                        res: seq![],
                        ss: seq![],
                        out: st.out.push(flush_rec(st, code)),
                    }
                } else {
                    MState {
                        active: st.active,
                        chain: c,
                        cur: st.cur,
                        first: st.first,
                        res: st.res,
                        ss: st.ss,
                        out: st.out,
                    }
                };
                match res_num_name_spec(l) {
                    Option::None => Result::Err(ExtractError::BadResidueNumber),
                    Option::Some((num, resch)) => match st1.cur {
                        CurPos::Broken => Result::Ok(st1),
                        CurPos::At(p) => if num != p + 1 {
                            Result::Ok(
                                MState {
                                    active: st1.active,
                                    chain: st1.chain,
                                    cur: CurPos::Broken,
                                    first: -998,
                                    res: seq![],
                                    ss: seq![],
                                    out: st1.out,
                                },
                            )
                        } else {
                            step_accum(st1, l, num, resch)
                        },
                        CurPos::Fresh => step_accum(st1, l, num, resch),
                    },
                }
            },
        }
    }
}

/// The machine run over a sequence of lines, stopping at the first
/// fault.
pub open spec fn run_machine(st: MState, lines: Seq<Seq<u8>>, code: Seq<u8>) -> Result<
    MState,
    ExtractError,
>
    decreases lines.len(),
{
    if lines.len() == 0 {
        Result::Ok(st)
    } else {
        match step(st, lines[0], code) {
            Result::Err(e) => Result::Err(e),
            Result::Ok(s2) => run_machine(s2, lines.drop_first(), code),
        }
    }
}

/// What extraction yields for a whole file: the flushed records, with
/// the in-progress accumulation flushed once more at end of input.
pub open spec fn extract_spec(lines: Seq<Seq<u8>>, code: Seq<u8>) -> Result<
    Seq<RecView>,
    ExtractError,
> {
    match run_machine(init_state(), lines, code) {
        Result::Err(e) => Result::Err(e),
        Result::Ok(st) => Result::Ok(st.out.push(flush_rec(st, code))),
    }
}

proof fn lemma_run_split(st: MState, lines: Seq<Seq<u8>>, code: Seq<u8>, k: int)
    requires
        0 <= k <= lines.len(),
    ensures
        run_machine(st, lines, code) == (match run_machine(st, lines.take(k), code) {
            Result::Ok(m) => run_machine(m, lines.skip(k), code),
            Result::Err(e) => Result::Err(e),
        }),
    decreases k,
{
    if k == 0 {
        assert(lines.take(0) =~= Seq::<Seq<u8>>::empty());
        assert(lines.skip(0) =~= lines);
    } else {
        assert(lines.take(k)[0] == lines[0]);
        match step(st, lines[0], code) {
            Result::Err(e) => {
            },
            Result::Ok(m) => {
                lemma_run_split(m, lines.drop_first(), code, k - 1);
                assert(lines.take(k).drop_first() =~= lines.drop_first().take(k - 1));
                assert(lines.skip(k) =~= lines.drop_first().skip(k - 1));
            },
        }
    }
}

/// The machine's invariant: the two accumulated sequences stay equal in
/// length, and so do they in every flushed record, whose identity is
/// the file code plus one byte.
pub open spec fn st_wf(st: MState, code: Seq<u8>) -> bool {
    &&& st.res.len() == st.ss.len()
    &&& forall|i: int|
        0 <= i < st.out.len() ==> (#[trigger] st.out[i]).res.len() == st.out[i].ss.len()
            && st.out[i].chain_id.len() == code.len() + 1
}

proof fn lemma_step_wf(st: MState, l: Seq<u8>, code: Seq<u8>)
    requires
        st_wf(st, code),
        step(st, l, code) is Ok,
    ensures
        st_wf(step(st, l, code)->Ok_0, code),
{
}

proof fn lemma_run_wf(st: MState, lines: Seq<Seq<u8>>, code: Seq<u8>)
    requires
        st_wf(st, code),
        run_machine(st, lines, code) is Ok,
    ensures
        st_wf(run_machine(st, lines, code)->Ok_0, code),
    decreases lines.len(),
{
    if lines.len() > 0 {
        lemma_step_wf(st, lines[0], code);
        lemma_run_wf(step(st, lines[0], code)->Ok_0, lines.drop_first(), code);
    }
}

/// Every record of a successful extraction is well formed: equal-length
/// sequence pair, identity of code length plus one.
pub proof fn lemma_extract_wf(lines: Seq<Seq<u8>>, code: Seq<u8>)
    requires
        extract_spec(lines, code) is Ok,
    ensures
        forall|i: int|
            0 <= i < extract_spec(lines, code)->Ok_0.len() ==> (#[trigger] extract_spec(
                lines,
                code,
            )->Ok_0[i]).res.len() == extract_spec(lines, code)->Ok_0[i].ss.len() && extract_spec(
                lines,
                code,
            )->Ok_0[i].chain_id.len() == code.len() + 1,
{
    lemma_run_wf(init_state(), lines, code);
}

proof fn lemma_run_snoc(st: MState, lines: Seq<Seq<u8>>, l: Seq<u8>, code: Seq<u8>)
    ensures
        run_machine(st, lines.push(l), code) == (match run_machine(st, lines, code) {
            Result::Ok(m) => step(m, l, code),
            Result::Err(e) => Result::Err(e),
        }),
    decreases lines.len(),
{
    assert(lines.push(l)[0] == if lines.len() == 0 {
        l
    } else {
        lines[0]
    });
    if lines.len() == 0 {
        assert(lines.push(l).drop_first() =~= Seq::<Seq<u8>>::empty());
        assert(run_machine(st, lines, code) == Result::Ok::<MState, ExtractError>(st));
        match step(st, l, code) {
            Result::Err(e) => {
                assert(run_machine(st, lines.push(l), code) == Result::Err::<MState, ExtractError>(
                    e,
                ));
            },
            Result::Ok(m) => {
                assert(run_machine(m, lines.push(l).drop_first(), code) == Result::Ok::<
                    MState,
                    ExtractError,
                >(m));
            },
        }
    } else {
        match step(st, lines[0], code) {
            Result::Err(e) => {
            },
            Result::Ok(m) => {
                lemma_run_snoc(m, lines.drop_first(), l, code);
                assert(lines.push(l).drop_first() =~= lines.drop_first().push(l));
            },
        }
    }
}

fn line_has_break(l: &Vec<u8>) -> (r: bool)
    ensures
        r == has_break_marker(l@),
{
    let mut i: usize = 0;
    while i < l.len()
        invariant
            i <= l@.len(),
            forall|j: int| 0 <= j < i ==> l@[j] != 33,
        decreases l@.len() - i,
    {
        if l[i] == 33 {
            return true;
        }
        i = i + 1;
    }
    false
}

fn line_is_marker(l: &Vec<u8>) -> (r: bool)
    ensures
        r == is_marker_line(l@),
{
    let mut i: usize = 0;
    proof {
        assert(l@.skip(0) =~= l@);
    }
    while i < l.len() && (l[i] == 32 || (l[i] >= 9 && l[i] <= 13))
        invariant
            i <= l@.len(),
            skip_ws(l@) == skip_ws(l@.skip(i as int)),
        decreases l@.len() - i,
    {
        proof {
            assert(l@.skip(i as int)[0] == l@[i as int]);
            assert(l@.skip(i as int).drop_first() =~= l@.skip(i + 1));
        }
        i = i + 1;
    }
    proof {
        if i < l@.len() {
            assert(skip_ws(l@.skip(i as int)) == l@.skip(i as int));
        } else {
            assert(l@.skip(i as int) =~= Seq::<u8>::empty());
        }
        assert(skip_ws(l@) == l@.skip(i as int));
    }
    let ghost t = l@.skip(i as int);
    if i == l.len() {
        return false;
    }
    proof {
        assert(t[0] == l@[i as int]);
    }
    if l[i] != 35 {
        return false;
    }
    if i + 1 == l.len() {
        proof {
            assert(t.len() == 1);
        }
        return true;
    }
    proof {
        assert(t[1] == l@[i + 1]);
        assert(t.len() > 1);
    }
    let c = l[i + 1];
    c == 32 || (c >= 9 && c <= 13)
}

pub(crate) fn copy_bytes(v: &Vec<u8>) -> (r: Vec<u8>)
    ensures
        r@ == v@,
{
    let mut out: Vec<u8> = Vec::new();
    let mut i: usize = 0;
    while i < v.len()
        invariant
            i <= v@.len(),
            out@ == v@.take(i as int),
        decreases v@.len() - i,
    {
        out.push(v[i]);
        proof {
            assert(v@.take(i + 1) =~= v@.take(i as int).push(v@[i as int]));
        }
        i = i + 1;
    }
    proof {
        assert(v@.take(v@.len() as int) =~= v@);
    }
    out
}

/// Run the extractor over the lines of one file, tagged with the file's
/// code. `Err` reproduces the machine's first fault; `Ok` is exactly
/// the machine's output, every record well formed.
pub fn get_dssp_data(lines: &Vec<Vec<u8>>, pdb_code: &Vec<u8>) -> (r: Result<
    Vec<ChainRecord>,
    ExtractError,
>)
    ensures
        (match (r, extract_spec(lines.deep_view(), pdb_code@)) {
            (Result::Ok(v), Result::Ok(s)) => v@.map_values(|c: ChainRecord| c@) == s,
            (Result::Err(e1), Result::Err(e2)) => e1 == e2,
            _ => false,
        }),
        r matches Ok(v) ==> forall|i: int|
            0 <= i < v@.len() ==> (#[trigger] v@[i]).res@.len() == v@[i].ss@.len(),
{
    let ghost lv = lines.deep_view();
    let ghost code = pdb_code@;
    let mut active = false;
    let mut chain: u8 = 32;
    let mut cursor = ResCursor::Fresh;
    let mut first: i32 = -999;
    let mut res: Vec<u8> = Vec::new();
    let mut ss: Vec<u8> = Vec::new();
    let mut out: Vec<ChainRecord> = Vec::new();
    let mut i: usize = 0;
    proof {
        assert(lv.take(0) =~= Seq::<Seq<u8>>::empty());
        assert(out@.map_values(|c: ChainRecord| c@) =~= Seq::<RecView>::empty());
    }
    while i < lines.len()
        invariant
            i <= lines@.len(),
            lv == lines.deep_view(),
            code == pdb_code@,
            run_machine(init_state(), lv.take(i as int), code) == Result::Ok::<
                MState,
                ExtractError,
            >(
                (MState {
                    active: active,
                    chain: chain,
                    cur: abs_cursor(cursor),
                    first: first as int,
                    res: res@,
                    ss: ss@,
                    out: out@.map_values(|c: ChainRecord| c@),
                }),
            ),
        decreases lines@.len() - i,
    {
        let ghost st_pre = MState {
            active: active,
            chain: chain,
            cur: abs_cursor(cursor),
            first: first as int,
            res: res@,
            ss: ss@,
            out: out@.map_values(|c: ChainRecord| c@),
        };
        let l = &lines[i];
        proof {
            assert(lv[i as int] == lines@[i as int]@);
        }
        if !active {
            if line_is_marker(l) {
                active = true;
            }
        } else if line_has_break(l) {
        } else {
            match get_chain_for(l) {
                None => {
                    proof {
                        lemma_run_split(init_state(), lv, code, i as int);
                        assert(lv.skip(i as int)[0] == lv[i as int]);
                        assert(lv.skip(i as int).len() > 0);
                    }
                    return Err(ExtractError::ShortLine);
                },
                Some(c) => {
                    if c != chain && chain != 32 {
                        let mut cid = copy_bytes(pdb_code);
                        cid.push(chain);
                        let done_res = res;
                        let done_ss = ss;
                        res = Vec::new();
                        ss = Vec::new();
                        let rec = ChainRecord {
                            chain_id: cid,
                            first_res: first,
                            res: done_res,
                            ss: done_ss,
                        };
                        proof {
                            assert(rec.chain_id@ =~= code + seq![chain]);
                            assert(rec@ == flush_rec(st_pre, code));
                        }
                        out.push(rec);
                        proof {
                            assert(out@.map_values(|cc: ChainRecord| cc@) =~= st_pre.out.push(
                                rec@,
                            ));
                        }
                        cursor = ResCursor::Fresh;
                        first = -999;
                    }
                    chain = c;
                    match get_res_num_name(l) {
                        None => {
                            proof {
                                lemma_run_split(init_state(), lv, code, i as int);
                                assert(lv.skip(i as int)[0] == lv[i as int]);
                                assert(lv.skip(i as int).len() > 0);
                            }
                            return Err(ExtractError::BadResidueNumber);
                        },
                        Some((num, resch)) => {
                            let gap = match cursor {
                                ResCursor::At(p) => p == i32::MAX || num != p + 1,
                                _ => false,
                            };
                            let broken = match cursor {
                                ResCursor::Broken => true,
                                _ => false,
                            };
                            if gap {
                                res = Vec::new();
                                ss = Vec::new();
                                cursor = ResCursor::Broken;
                                first = -998;
                            } else if !broken {
                                match get_ss_for(l) {
                                    None => {
                                        proof {
                                            lemma_run_split(init_state(), lv, code, i as int);
                                            assert(lv.skip(i as int)[0] == lv[i as int]);
                                            assert(lv.skip(i as int).len() > 0);
                                        }
                                        return Err(ExtractError::ShortLine);
                                    },
                                    Some(ssc) => {
                                        if first == -999 {
                                            first = num;
                                        }
                                        cursor = ResCursor::At(num);
                                        res.push(resch);
                                        ss.push(ssc);
                                    },
                                }
                            }
                        },
                    }
                },
            }
        }
        proof {
            let st_post = MState {
                active: active,
                chain: chain,
                cur: abs_cursor(cursor),
                first: first as int,
                res: res@,
                ss: ss@,
                out: out@.map_values(|c: ChainRecord| c@),
            };
            assert(step(st_pre, lv[i as int], code) == Result::Ok::<MState, ExtractError>(
                st_post,
            ));
            lemma_run_snoc(init_state(), lv.take(i as int), lv[i as int], code);
            assert(lv.take(i + 1) =~= lv.take(i as int).push(lv[i as int]));
        }
        i = i + 1;
    }
    proof {
        assert(lv.take(lv.len() as int) =~= lv);
    }
    let mut cid = copy_bytes(pdb_code);
    cid.push(chain);
    let rec = ChainRecord { chain_id: cid, first_res: first, res: res, ss: ss };
    let ghost st_end = MState {
        active: active,
        chain: chain,
        cur: abs_cursor(cursor),
        first: first as int,
        res: rec.res@,
        ss: rec.ss@,
        out: out@.map_values(|c: ChainRecord| c@),
    };
    proof {
        assert(rec.chain_id@ =~= code + seq![chain]);
        assert(rec@ == flush_rec(st_end, code));
    }
    out.push(rec);
    proof {
        assert(out@.map_values(|cc: ChainRecord| cc@) =~= st_end.out.push(rec@));
        lemma_extract_wf(lv, code);
        assert(forall|k: int|
            0 <= k < out@.len() ==> (#[trigger] out@[k])@ == out@.map_values(
                |cc: ChainRecord| cc@,
            )[k]);
        assert forall|k: int|
            0 <= k < out@.len() implies (#[trigger] out@[k]).res@.len()
            == out@[k].ss@.len() by {
            assert(out@[k]@ == extract_spec(lv, code)->Ok_0[k]);
        }
    }
    Ok(out)
}

pub fn get_beta_data_for(line: &Vec<u8>) -> (r: Option<(i32, i32, u8)>)
    ensures
        r == beta_data_spec(line@),
{
    if line.len() < 34 {
        return None;
    }
    let digits = substr_no_ws(line, 5, 10);
    let n = match parse_res_i32(&digits) {
        None => {
            return None;
        },
        Some(n) => n,
    };
    let beta_digits = substr_no_ws(line, 29, 33);
    match parse_res_i32(&beta_digits) {
        None => None,
        Some(bp) => Some((n, bp, line[33])),
    }
}

} // verus!
