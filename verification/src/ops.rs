//! The operations of the random workload and their form as a line of text.

use crate::history::SEGMENT_SIZE;
use vstd::prelude::*;

verus! {

/// One operation within a batch.
#[derive(Debug, Clone, Copy, PartialEq, Eq, Structural)]
pub enum BatchOp {
    Put,
    Del(u8),
}

/// One operation of the workload, or a note of what happened during it.
#[derive(Debug, Clone, PartialEq, Eq)]
pub enum Op {
    Put,
    Del(u8),
    Id,
    Batched(Vec<BatchOp>),
    Restart,
    Flush,
    DelayedCrash,
    CrashAndRecoveryVirtualOp(u32),
    IdResultVirtualOp(u64),
}

/// What an operation holds.
pub enum OpModel {
    Put,
    Del(u8),
    Id,
    Batched(Seq<BatchOp>),
    Restart,
    Flush,
    DelayedCrash,
    CrashAndRecoveryVirtualOp(u32),
    IdResultVirtualOp(u64),
}

impl View for Op {
    type V = OpModel;

    open spec fn view(&self) -> OpModel {
        match self {
            Op::Put => OpModel::Put,
            Op::Del(k) => OpModel::Del(*k),
            Op::Id => OpModel::Id,
            Op::Batched(ops) => OpModel::Batched(ops@),
            Op::Restart => OpModel::Restart,
            Op::Flush => OpModel::Flush,
            Op::DelayedCrash => OpModel::DelayedCrash,
            Op::CrashAndRecoveryVirtualOp(n) => OpModel::CrashAndRecoveryVirtualOp(*n),
            Op::IdResultVirtualOp(id) => OpModel::IdResultVirtualOp(*id),
        }
    }
}

/// The line is no operation.
#[derive(Debug)]
pub struct OpDecodeError;

/// The byte of a decimal digit.
pub open spec fn digit_byte(d: nat) -> u8 {
    (48 + d) as u8
}

/// The decimal form of `n` in bytes, without leading zeros.
pub open spec fn decimal_bytes(n: nat) -> Seq<u8>
    decreases n,
{
    if n < 10 {
        seq![digit_byte(n)]
    } else {
        decimal_bytes(n / 10).push(digit_byte(n % 10))
    }
}

/// The text of an operation within a batch: `s`, or `d` and the key.
pub open spec fn batch_op_text(op: BatchOp) -> Seq<u8> {
    match op {
        BatchOp::Put => seq![115u8],
        BatchOp::Del(key) => seq![100u8] + decimal_bytes(key as nat),
    }
}

/// The text of the first `n` operations of a batch.
pub open spec fn batch_text(ops: Seq<BatchOp>, n: nat) -> Seq<u8>
    decreases n,
{
    if n == 0 || n > ops.len() {
        Seq::empty()
    } else {
        batch_text(ops, (n - 1) as nat) + batch_op_text(ops[n - 1])
    }
}

/// The text of an operation: a letter for its kind, then its number or its
/// batch.
pub open spec fn encoded(op: OpModel) -> Seq<u8> {
    match op {
        OpModel::Put => seq![115u8],
        OpModel::Del(key) => seq![100u8] + decimal_bytes(key as nat),
        OpModel::Id => seq![105u8],
        OpModel::Batched(ops) => seq![98u8] + batch_text(ops, ops.len()),
        OpModel::Restart => seq![45u8],
        OpModel::Flush => seq![102u8],
        OpModel::DelayedCrash => seq![95u8],
        OpModel::CrashAndRecoveryVirtualOp(n) => seq![99u8] + decimal_bytes(n as nat),
        OpModel::IdResultVirtualOp(id) => seq![73u8] + decimal_bytes(id as nat),
    }
}

/// Whether the byte is a decimal digit.
pub open spec fn is_digit(b: u8) -> bool {
    48 <= b <= 57
}

/// The number that a string of digits stands for.
pub open spec fn digits_value(d: Seq<u8>) -> nat
    decreases d.len(),
{
    if d.len() == 0 {
        0
    } else {
        digits_value(d.drop_last()) * 10 + (d.last() - 48) as nat
    }
}

/// Every byte is a decimal digit.
pub open spec fn all_digits(d: Seq<u8>) -> bool {
    forall|i: int| 0 <= i < d.len() ==> is_digit(#[trigger] d[i])
}

/// The number that `d` stands for, if `d` is a string of at least one digit
/// whose number is at most `max`. Zeros may lead.
pub open spec fn number(d: Seq<u8>, max: nat) -> Option<nat> {
    if d.len() > 0 && all_digits(d) && digits_value(d) <= max {
        Some(digits_value(d))
    } else {
        None
    }
}

/// Where the digits that start at `from` end.
pub open spec fn digits_end(data: Seq<u8>, from: int) -> int
    decreases data.len() - from,
{
    if 0 <= from < data.len() && is_digit(data[from]) {
        digits_end(data, from + 1)
    } else {
        from
    }
}

/// The operations of a batch: those in `acc`, then those that the text
/// from `from` on holds, if it holds nothing else. After `d` the key goes as
/// far as the digits go.
pub open spec fn batch(data: Seq<u8>, from: int, acc: Seq<BatchOp>) -> Option<Seq<BatchOp>>
    decreases data.len() - from,
{
    if from < 0 || from >= data.len() {
        Some(acc)
    } else if data[from] == 115 {
        batch(data, from + 1, acc.push(BatchOp::Put))
    } else if data[from] == 100 {
        let end = digits_end(data, from + 1);
        match number(data.subrange(from + 1, end), 255) {
            Some(key) => {
                proof {
                    lemma_digits_end(data, from + 1);
                }
                batch(data, end, acc.push(BatchOp::Del(key as u8)))
            },
            None => None,
        }
    } else {
        None
    }
}

/// The digits that start at `from` go on to where they end, and no digit
/// stands there.
pub proof fn lemma_digits_end(data: Seq<u8>, from: int)
    requires
        0 <= from <= data.len(),
    ensures
        from <= digits_end(data, from) <= data.len(),
        forall|i: int| from <= i < digits_end(data, from) ==> is_digit(#[trigger] data[i]),
        digits_end(data, from) < data.len() ==> !is_digit(data[digits_end(data, from)]),
    decreases data.len() - from,
{
    if from < data.len() && is_digit(data[from]) {
        lemma_digits_end(data, from + 1);
    }
}

/// The operation that a line of text stands for, if it stands for one.
pub open spec fn decoded(data: Seq<u8>) -> Option<OpModel> {
    if data.len() == 0 {
        None
    } else {
        let rest = data.skip(1);
        if data[0] == 115 {
            Some(OpModel::Put)
        } else if data[0] == 100 {
            match number(rest, 255) {
                Some(key) => Some(OpModel::Del(key as u8)),
                None => None,
            }
        } else if data[0] == 105 {
            Some(OpModel::Id)
        } else if data[0] == 98 {
            match batch(data, 1, Seq::empty()) {
                Some(ops) => Some(OpModel::Batched(ops)),
                None => None,
            }
        } else if data[0] == 45 {
            Some(OpModel::Restart)
        } else if data[0] == 102 {
            Some(OpModel::Flush)
        } else if data[0] == 95 {
            Some(OpModel::DelayedCrash)
        } else if data[0] == 99 {
            match number(rest, 0xffff_ffff) {
                Some(n) => Some(OpModel::CrashAndRecoveryVirtualOp(n as u32)),
                None => None,
            }
        } else if data[0] == 73 {
            match number(rest, 0xffff_ffff_ffff_ffff) {
                Some(id) => Some(OpModel::IdResultVirtualOp(id as u64)),
                None => None,
            }
        } else {
            None
        }
    }
}

/// Appends `n` in decimal.
fn push_number(out: &mut Vec<u8>, n: u64)
    ensures
        final(out)@ == old(out)@ + decimal_bytes(n as nat),
    decreases n,
{
    if n >= 10 {
        push_number(out, n / 10);
    }
    out.push(48u8 + (n % 10) as u8);
    assert(out@ =~= old(out)@ + decimal_bytes(n as nat));
}

/// The number that the digits of `data` from `from` to `to` stand for, if
/// there is at least one, all are digits and the number is at most `max`.
fn parse_number(data: &[u8], from: usize, to: usize, max: u64) -> (r: Option<u64>)
    requires
        from <= to <= data@.len(),
        max >= 9,
    ensures
        match r {
            Some(n) => number(data@.subrange(from as int, to as int), max as nat) == Some(
                n as nat,
            ),
            None => number(data@.subrange(from as int, to as int), max as nat) is None,
        },
{
    let ghost d = data@.subrange(from as int, to as int);
    if from == to {
        return None;
    }
    let mut value: u64 = 0;
    let mut i: usize = from;
    assert(d.take(0) =~= Seq::<u8>::empty());
    while i < to
        invariant
            from <= i <= to,
            to <= data@.len(),
            max >= 9,
            d == data@.subrange(from as int, to as int),
            all_digits(d.take(i - from)),
            value == digits_value(d.take(i - from)),
            value <= max,
        decreases to - i,
    {
        let byte = data[i];
        assert(d[i - from] == byte);
        let ghost prefix = d.take(i - from);
        let ghost next = d.take(i - from + 1);
        assert(next.drop_last() =~= prefix);
        assert(next.last() == byte);
        if byte >= 48 && byte <= 57 {
            let digit = (byte - 48) as u64;
            if value > (max - digit) / 10 {
                proof {
                    assert(digits_value(next) > max) by (nonlinear_arith)
                        requires
                            digits_value(next) == value * 10 + digit,
                            value > (max - digit) / 10,
                            digit <= 9,
                            max >= 9,
                    ;
                    lemma_digits_grow(d, i - from + 1);
                }
                return None;
            }
            assert(value * 10 + digit <= max) by (nonlinear_arith)
                requires
                    value <= (max - digit) / 10,
                    digit <= 9,
                    max >= 9,
            ;
            value = value * 10 + digit;
            assert(all_digits(next)) by {
                assert forall|j: int| 0 <= j < next.len() implies is_digit(#[trigger] next[j]) by {
                    if j < prefix.len() {
                        assert(next[j] == prefix[j]);
                    }
                }
            }
        } else {
            assert(!all_digits(d)) by {
                assert(!is_digit(d[i - from]));
            }
            return None;
        }
        i += 1;
    }
    assert(d.take(i - from) =~= d);
    Some(value)
}

/// The number of a string of digits is at least that of each of its
/// beginnings.
proof fn lemma_digits_grow(d: Seq<u8>, n: int)
    requires
        0 <= n <= d.len(),
    ensures
        digits_value(d.take(n)) <= digits_value(d),
    decreases d.len() - n,
{
    if n < d.len() {
        lemma_digits_grow(d, n + 1);
        assert(d.take(n + 1).drop_last() =~= d.take(n));
        assert(digits_value(d.take(n)) <= digits_value(d.take(n + 1))) by (nonlinear_arith)
            requires
                digits_value(d.take(n + 1)) == digits_value(d.take(n)) * 10 + (d.take(
                    n + 1,
                ).last() - 48) as nat,
        ;
    } else {
        assert(d.take(n) =~= d);
    }
}

impl Op {
    /// The operation as a line of text, without the line's end.
    pub fn encode(&self) -> (text: Vec<u8>)
        ensures
            text@ == encoded(self@),
    {
        let mut output: Vec<u8> = Vec::new();
        match self {
            Op::Put => {
                output.push(115u8);
            },
            Op::Del(key) => {
                output.push(100u8);
                push_number(&mut output, *key as u64);
            },
            Op::Id => {
                output.push(105u8);
            },
            Op::Batched(ops) => {
                output.push(98u8);
                let mut i: usize = 0;
                assert(output@ =~= seq![98u8] + batch_text(ops@, 0));
                while i < ops.len()
                    invariant
                        i <= ops.len(),
                        output@ == seq![98u8] + batch_text(ops@, i as nat),
                    decreases ops.len() - i,
                {
                    let ghost before = output@;
                    match ops[i] {
                        BatchOp::Put => {
                            output.push(115u8);
                        },
                        BatchOp::Del(key) => {
                            output.push(100u8);
                            push_number(&mut output, key as u64);
                        },
                    }
                    assert(output@ =~= before + batch_op_text(ops@[i as int]));
                    assert(output@ =~= seq![98u8] + batch_text(ops@, (i + 1) as nat));
                    i += 1;
                }
            },
            Op::Restart => {
                output.push(45u8);
            },
            Op::Flush => {
                output.push(102u8);
            },
            Op::DelayedCrash => {
                output.push(95u8);
            },
            Op::CrashAndRecoveryVirtualOp(batch_counter) => {
                output.push(99u8);
                push_number(&mut output, *batch_counter as u64);
            },
            Op::IdResultVirtualOp(id) => {
                output.push(73u8);
                push_number(&mut output, *id);
            },
        }
        assert(output@ =~= encoded(self@));
        output
    }

    /// The operation that a line of text stands for.
    pub fn decode(data: &[u8]) -> (r: Result<Op, OpDecodeError>)
        ensures
            match r {
                Ok(op) => decoded(data@) == Some(op@),
                Err(_) => decoded(data@) is None,
            },
    {
        if data.len() == 0 {
            return Err(OpDecodeError);
        }
        assert(data@.skip(1) =~= data@.subrange(1, data@.len() as int));
        let first = data[0];
        if first == 115 {
            Ok(Op::Put)
        } else if first == 100 {
            match parse_number(data, 1, data.len(), 255) {
                Some(key) => Ok(Op::Del(key as u8)),
                None => Err(OpDecodeError),
            }
        } else if first == 105 {
            Ok(Op::Id)
        } else if first == 98 {
            let mut ops: Vec<BatchOp> = Vec::new();
            let mut at: usize = 1;
            while at < data.len()
                invariant
                    1 <= at <= data.len(),
                    data@[0] == 98,
                    batch(data@, at as int, ops@) == batch(data@, 1, Seq::empty()),
                decreases data.len() - at,
            {
                if data[at] == 115 {
                    ops.push(BatchOp::Put);
                    at += 1;
                } else if data[at] == 100 {
                    let mut number_end: usize = at + 1;
                    while number_end < data.len() && data[number_end] >= 48 && data[number_end]
                        <= 57
                        invariant
                            at + 1 <= number_end <= data.len(),
                            digits_end(data@, at + 1) == digits_end(data@, number_end as int),
                        decreases data.len() - number_end,
                    {
                        number_end += 1;
                    }
                    match parse_number(data, at + 1, number_end, 255) {
                        Some(key) => {
                            ops.push(BatchOp::Del(key as u8));
                        },
                        None => {
                            return Err(OpDecodeError);
                        },
                    }
                    at = number_end;
                } else {
                    return Err(OpDecodeError);
                }
            }
            Ok(Op::Batched(ops))
        } else if first == 45 {
            Ok(Op::Restart)
        } else if first == 102 {
            Ok(Op::Flush)
        } else if first == 95 {
            Ok(Op::DelayedCrash)
        } else if first == 99 {
            match parse_number(data, 1, data.len(), 0xffff_ffff) {
                Some(n) => Ok(Op::CrashAndRecoveryVirtualOp(n as u32)),
                None => Err(OpDecodeError),
            }
        } else if first == 73 {
            match parse_number(data, 1, data.len(), 0xffff_ffff_ffff_ffff) {
                Some(id) => Ok(Op::IdResultVirtualOp(id)),
                None => Err(OpDecodeError),
            }
        } else {
            Err(OpDecodeError)
        }
    }
}

/// Why no operation was had from a reader.
#[derive(Debug)]
pub enum OpReaderError {
    /// The line is no operation.
    Decode(OpDecodeError),
    /// The line could not be read.
    IO(std::io::Error),
}

impl From<OpDecodeError> for OpReaderError {
    fn from(e: OpDecodeError) -> (error: OpReaderError) {
        OpReaderError::Decode(e)
    }
}

impl vstd::std_specs::convert::FromSpecImpl<OpDecodeError> for OpReaderError {
    open spec fn obeys_from_spec() -> bool {
        true
    }

    open spec fn from_spec(e: OpDecodeError) -> OpReaderError {
        OpReaderError::Decode(e)
    }
}

impl From<std::io::Error> for OpReaderError {
    fn from(e: std::io::Error) -> (error: OpReaderError) {
        OpReaderError::IO(e)
    }
}

impl vstd::std_specs::convert::FromSpecImpl<std::io::Error> for OpReaderError {
    open spec fn obeys_from_spec() -> bool {
        true
    }

    open spec fn from_spec(e: std::io::Error) -> OpReaderError {
        OpReaderError::IO(e)
    }
}

/// The part of a reader of operations that does not read: the line last
/// read, with its end.
#[derive(Debug)]
pub struct OpReader {
    pub buffer: Vec<u8>,
}

impl OpReader {
    /// The operation of the line last read. There is none where nothing was
    /// read or the line has no end: the writer had not finished it.
    pub fn decode_line(&self) -> (r: Option<Result<Op, OpReaderError>>)
        ensures
            (self.buffer@.len() == 0 || self.buffer@.last() != 10) <==> r is None,
            r matches Some(Ok(op)) ==> decoded(self.buffer@.drop_last()) == Some(op@),
            r matches Some(Err(e)) ==> e is Decode && decoded(self.buffer@.drop_last()) is None,
    {
        let n = self.buffer.len();
        if n == 0 || self.buffer[n - 1] != 10 {
            return None;
        }
        let line = vstd::slice::slice_subrange(self.buffer.as_slice(), 0, n - 1);
        assert(line@ =~= self.buffer@.drop_last());
        match Op::decode(line) {
            Ok(op) => Some(Ok(op)),
            Err(e) => Some(Err(OpReaderError::from(e))),
        }
    }
}

/// The number that the first two bytes of a stored value stand for, the
/// first byte counting 256.
pub fn decode_value(bytes: &[u8]) -> (value: u16)
    requires
        bytes@.len() >= 2,
        bytes@[0] % 4 != 0 ==> bytes@.len() == 2,
    ensures
        value == bytes@[0] * 256 + bytes@[1],
{
    let hi = bytes[0] as u16;
    let lo = bytes[1] as u16;
    assert(hi << 8 == hi * 256) by (bit_vector)
        requires
            hi < 256,
    ;
    (hi << 8) + lo
}

/// How many times the low byte is repeated behind the two bytes of a stored
/// value: values whose high byte is a multiple of 4 are made long.
pub open spec fn padding(set_counter: u16) -> nat {
    let hi = set_counter as nat / 256;
    if hi % 4 == 0 {
        hi * SEGMENT_SIZE as nat / 4 * set_counter as nat
    } else {
        0
    }
}

/// The value stored for a counter: its two bytes, high byte first, then the
/// low byte as often as `padding` says.
pub open spec fn stored_value(set_counter: u16) -> Seq<u8> {
    seq![(set_counter as nat / 256) as u8, (set_counter as nat % 256) as u8] + Seq::new(
        padding(set_counter),
        |i: int| (set_counter as nat % 256) as u8,
    )
}

/// The value stored for a counter.
pub fn value_factory(set_counter: u16) -> (val: Vec<u8>)
    ensures
        val@ == stored_value(set_counter),
{
    let hi = (set_counter >> 8) as u8;
    let lo = (set_counter & 0xff) as u8;
    assert(set_counter >> 8 == set_counter / 256) by (bit_vector);
    assert(set_counter & 0xff == set_counter % 256) by (bit_vector);
    let mut val = vec![hi, lo];
    if hi % 4 == 0 {
        let segments = hi as usize * SEGMENT_SIZE / 4;
        assert(segments * set_counter as usize <= 16320 * 65535) by (nonlinear_arith)
            requires
                segments <= 16320,
                set_counter <= 65535,
        ;
        let count = segments * set_counter as usize;
        let mut fill = vec![lo; count];
        val.append(&mut fill);
    }
    assert(val@ =~= stored_value(set_counter));
    val
}

/// The counter is had back from the value stored for it.
pub proof fn lemma_stored_value(set_counter: u16)
    ensures
        stored_value(set_counter).len() >= 2,
        stored_value(set_counter)[0] % 4 != 0 ==> stored_value(set_counter).len() == 2,
        stored_value(set_counter)[0] * 256 + stored_value(set_counter)[1] == set_counter,
{
}

/// The random draws from which an operation is made.
#[derive(Debug)]
pub struct OpDraws {
    /// Whether a crash is due, where crashes are asked for; true once in
    /// thirty.
    pub delayed_crash: bool,
    /// Whether a restart is due; true once in ten.
    pub restart: bool,
    /// The kind of the operation, from 0 to 4.
    pub kind: u8,
    /// The key of a removal.
    pub key: u8,
    /// The draws of a batch, up to nineteen of them.
    pub batch: Vec<BatchDraws>,
}

/// The random draws from which an operation of a batch is made.
#[derive(Debug, Clone, Copy)]
pub struct BatchDraws {
    /// Whether the operation is a write.
    pub put: bool,
    /// The key of a removal.
    pub key: u8,
}

/// The operation of a batch that the draws stand for.
pub open spec fn batch_op_drawn(draws: BatchDraws) -> BatchOp {
    if draws.put {
        BatchOp::Put
    } else {
        BatchOp::Del(draws.key)
    }
}

/// The operation that the draws stand for: a crash where one is due and
/// crashes are asked for, else a restart where one is due, else an operation
/// of the kind drawn.
pub open spec fn drawn(draws: OpDraws, crash: bool) -> OpModel {
    if crash && draws.delayed_crash {
        OpModel::DelayedCrash
    } else if draws.restart {
        OpModel::Restart
    } else if draws.kind == 0 {
        OpModel::Put
    } else if draws.kind == 1 {
        OpModel::Del(draws.key)
    } else if draws.kind == 2 {
        OpModel::Id
    } else if draws.kind == 3 {
        OpModel::Batched(Seq::new(draws.batch@.len(), |i: int| batch_op_drawn(draws.batch@[i])))
    } else {
        OpModel::Flush
    }
}

impl BatchOp {
    /// The operation of a batch that the draws stand for.
    pub fn generate(draws: BatchDraws) -> (op: BatchOp)
        ensures
            op == batch_op_drawn(draws),
    {
        if draws.put {
            BatchOp::Put
        } else {
            BatchOp::Del(draws.key)
        }
    }
}

impl Op {
    /// The operation that the draws stand for.
    pub fn generate(draws: &OpDraws, crash: bool) -> (op: Op)
        requires
            draws.kind < 5,
        ensures
            op@ == drawn(*draws, crash),
    {
        if crash && draws.delayed_crash {
            return Op::DelayedCrash;
        }
        if draws.restart {
            return Op::Restart;
        }
        if draws.kind == 0 {
            Op::Put
        } else if draws.kind == 1 {
            Op::Del(draws.key)
        } else if draws.kind == 2 {
            Op::Id
        } else if draws.kind == 3 {
            let mut ops: Vec<BatchOp> = Vec::new();
            let mut i: usize = 0;
            while i < draws.batch.len()
                invariant
                    i <= draws.batch.len(),
                    ops.len() == i,
                    forall|j: int| 0 <= j < i ==> ops@[j] == batch_op_drawn(draws.batch@[j]),
                decreases draws.batch.len() - i,
            {
                ops.push(BatchOp::generate(draws.batch[i]));
                i += 1;
            }
            assert(ops@ =~= Seq::new(
                draws.batch@.len(),
                |i: int| batch_op_drawn(draws.batch@[i]),
            ));
            Op::Batched(ops)
        } else {
            Op::Flush
        }
    }
}

/// The decimal form of a number is a string of digits that stands for the
/// number.
pub proof fn lemma_decimal_bytes(n: nat)
    ensures
        decimal_bytes(n).len() >= 1,
        all_digits(decimal_bytes(n)),
        digits_value(decimal_bytes(n)) == n,
    decreases n,
{
    let d = decimal_bytes(n);
    if n < 10 {
        assert(d.drop_last() =~= Seq::<u8>::empty());
        assert(digits_value(d.drop_last()) == 0);
        assert(d.last() == digit_byte(n));
    } else {
        lemma_decimal_bytes(n / 10);
        let head = decimal_bytes(n / 10);
        assert(d.drop_last() =~= head);
        assert(d.last() == digit_byte(n % 10));
        assert forall|i: int| 0 <= i < d.len() implies is_digit(#[trigger] d[i]) by {
            if i < head.len() {
                assert(d[i] == head[i]);
            }
        }
    }
}

/// Where a string of digits ends at `to`, and what follows is no digit, the
/// digits that start at `from` end at `to`.
pub proof fn lemma_digits_end_at(data: Seq<u8>, from: int, to: int)
    requires
        0 <= from <= to <= data.len(),
        forall|i: int| from <= i < to ==> is_digit(#[trigger] data[i]),
        to < data.len() ==> !is_digit(data[to]),
    ensures
        digits_end(data, from) == to,
    decreases to - from,
{
    if from < to {
        lemma_digits_end_at(data, from + 1, to);
    }
}

/// The text of the operations of a batch from place `k` on.
pub open spec fn batch_rest(ops: Seq<BatchOp>, k: int) -> Seq<u8>
    decreases ops.len() - k,
{
    if k < 0 || k >= ops.len() {
        Seq::empty()
    } else {
        batch_op_text(ops[k]) + batch_rest(ops, k + 1)
    }
}

/// The text of a batch is the text of its first operations followed by the
/// text of the others.
pub proof fn lemma_batch_text_split(ops: Seq<BatchOp>, n: nat)
    requires
        n <= ops.len(),
    ensures
        batch_text(ops, n) + batch_rest(ops, n as int) == batch_text(ops, ops.len()),
    decreases ops.len() - n,
{
    if n < ops.len() {
        lemma_batch_text_split(ops, n + 1);
        assert(batch_text(ops, n) + batch_rest(ops, n as int) =~= batch_text(ops, n + 1)
            + batch_rest(ops, n as int + 1));
    } else {
        assert(batch_text(ops, n) + batch_rest(ops, n as int) =~= batch_text(ops, n));
    }
}

/// The text of a batch from place `k` on is read back as the operations
/// from place `k` on.
pub proof fn lemma_batch_round_trip(data: Seq<u8>, from: int, ops: Seq<BatchOp>, k: int, acc: Seq<
    BatchOp,
>)
    requires
        0 <= k <= ops.len(),
        0 <= from <= data.len(),
        data.skip(from) == batch_rest(ops, k),
    ensures
        batch(data, from, acc) == Some(acc + ops.skip(k)),
    decreases ops.len() - k,
{
    let rest = batch_rest(ops, k);
    if k == ops.len() {
        assert(data.skip(from).len() == 0);
        assert(acc + ops.skip(k) =~= acc);
    } else {
        let text = batch_op_text(ops[k]);
        let after = batch_rest(ops, k + 1);
        assert(rest == text + after);
        let tail = data.skip(from);
        assert(tail.len() == text.len() + after.len());
        assert(text.len() >= 1);
        assert forall|i: int| 0 <= i < tail.len() implies data[from + i] == #[trigger] tail[i] by {}
        assert forall|i: int| 0 <= i < after.len() implies tail[text.len() + i]
            == #[trigger] after[i] by {}
        assert(data[from] == tail[0]);
        assert(acc.push(ops[k]) + ops.skip(k + 1) =~= acc + ops.skip(k));
        match ops[k] {
            BatchOp::Put => {
                assert(text.len() == 1);
                assert forall|i: int| 0 <= i < after.len() implies data.skip(from + 1)[i]
                    == after[i] by {
                    assert(data.skip(from + 1)[i] == tail[1 + i]);
                }
                assert(data.skip(from + 1) =~= after);
                lemma_batch_round_trip(data, from + 1, ops, k + 1, acc.push(ops[k]));
            },
            BatchOp::Del(key) => {
                let digits = decimal_bytes(key as nat);
                lemma_decimal_bytes(key as nat);
                let to = from + 1 + digits.len();
                assert(text.len() == 1 + digits.len());
                assert(to <= data.len());
                assert forall|i: int| from + 1 <= i < to implies is_digit(#[trigger] data[i])
                    && data[i] == digits[i - from - 1] by {
                    assert(data[i] == tail[i - from]);
                    assert(tail[i - from] == text[i - from]);
                    assert(text[i - from] == digits[i - from - 1]);
                }
                if to < data.len() {
                    assert(data[to] == tail[to - from]);
                    assert(tail[text.len() as int] == after[0]);
                    assert(k + 1 < ops.len());
                    assert(after == batch_op_text(ops[k + 1]) + batch_rest(ops, k + 2));
                    assert(after[0] == batch_op_text(ops[k + 1])[0]);
                    assert(after[0] == 115 || after[0] == 100);
                }
                lemma_digits_end_at(data, from + 1, to);
                assert(data.subrange(from + 1, to) =~= digits);
                assert forall|i: int| 0 <= i < after.len() implies data.skip(to)[i] == after[i] by {
                    assert(data.skip(to)[i] == tail[text.len() + i]);
                }
                assert(data.skip(to) =~= after);
                lemma_batch_round_trip(data, to, ops, k + 1, acc.push(ops[k]));
            },
        }
    }
}

/// An operation is had back from its text.
pub proof fn lemma_round_trip(op: OpModel)
    ensures
        decoded(encoded(op)) == Some(op),
{
    let data = encoded(op);
    match op {
        OpModel::Del(key) => {
            lemma_decimal_bytes(key as nat);
            assert(data.skip(1) =~= decimal_bytes(key as nat));
        },
        OpModel::CrashAndRecoveryVirtualOp(n) => {
            lemma_decimal_bytes(n as nat);
            assert(data.skip(1) =~= decimal_bytes(n as nat));
        },
        OpModel::IdResultVirtualOp(id) => {
            lemma_decimal_bytes(id as nat);
            assert(data.skip(1) =~= decimal_bytes(id as nat));
        },
        OpModel::Batched(ops) => {
            lemma_batch_text_split(ops, 0);
            assert(batch_text(ops, 0) + batch_rest(ops, 0) =~= batch_rest(ops, 0));
            assert(data.skip(1) =~= batch_rest(ops, 0));
            lemma_batch_round_trip(data, 1, ops, 0, Seq::empty());
            assert(Seq::<BatchOp>::empty() + ops.skip(0) =~= ops);
        },
        _ => {},
    }
}

} // verus!
