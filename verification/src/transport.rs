//! Talking to the display: its control reports, its frames, and how it is found.

use vstd::prelude::*;

use crate::bytes::{le16, read_u16};
use crate::protocol::{CHUNK_SIZE, PID, VID};
use crate::text::{
    contains_ignoring_case, decimal, encode_utf16, has_part, lemma_text_before_nul, nul_position, push_decimal, until_nul,
    utf16,
};

verus! {

/// The control reports that start the display, each with its time in microseconds: an exact replay of
/// an ordinary start that was captured on a 345F:9132 unit with 480 by 480 pixels, UYVY and VIC 143.
pub const STARTUP_REPORTS: [(u32, [u8; 8]); 81] = [
    (0, [0xa6, 0x03, 0x03, 0x00, 0x00, 0x00, 0x00, 0x00]),
    (21_837, [0xb5, 0xc5, 0x58, 0x00, 0x00, 0x00, 0x00, 0x00]),
    (27_258, [0xb6, 0xde, 0xee, 0x01, 0x00, 0x00, 0x00, 0x00]),
    (30_239, [0xa6, 0x07, 0x01, 0x02, 0x00, 0x00, 0x00, 0x00]),
    (147_011, [0xb5, 0xc4, 0x54, 0x00, 0x00, 0x00, 0x00, 0x00]),
    (152_241, [0xa6, 0x05, 0x00, 0x00, 0x00, 0x00, 0x00, 0x00]),
    (177_346, [0xb5, 0xc5, 0x55, 0x00, 0x00, 0x00, 0x00, 0x00]),
    (183_259, [0xb5, 0xf0, 0x04, 0x00, 0x00, 0x00, 0x00, 0x00]),
    (189_276, [0xb6, 0xf0, 0x04, 0x6d, 0x00, 0x00, 0x00, 0x00]),
    (192_239, [0xf5, 0x00, 0x1f, 0xe0, 0x00, 0x00, 0x00, 0x00]),
    (198_236, [0xf5, 0x00, 0x1f, 0xe8, 0x00, 0x00, 0x00, 0x00]),
    (204_243, [0xf5, 0x00, 0x1f, 0xf0, 0x00, 0x00, 0x00, 0x00]),
    (210_241, [0xf5, 0x00, 0x1f, 0xf8, 0x00, 0x00, 0x00, 0x00]),
    (216_233, [0xb5, 0xc4, 0x24, 0x00, 0x00, 0x00, 0x00, 0x00]),
    (222_230, [0xb5, 0xc6, 0x50, 0x00, 0x00, 0x00, 0x00, 0x00]),
    (228_239, [0xb5, 0xc3, 0x0f, 0x00, 0x00, 0x00, 0x00, 0x00]),
    (234_238, [0xb5, 0xff, 0x00, 0x00, 0x00, 0x00, 0x00, 0x00]),
    (240_290, [0xb5, 0xf0, 0x00, 0x00, 0x00, 0x00, 0x00, 0x00]),
    (246_257, [0xb5, 0x00, 0x31, 0x00, 0x00, 0x00, 0x00, 0x00]),
    (252_254, [0xb5, 0x00, 0x30, 0x00, 0x00, 0x00, 0x00, 0x00]),
    (270_632, [0xb5, 0x00, 0x32, 0x00, 0x00, 0x00, 0x00, 0x00]),
    (1_262_877, [0xb5, 0x00, 0x32, 0x00, 0x00, 0x00, 0x00, 0x00]),
    (1_278_596, [0xb5, 0xc0, 0x00, 0x00, 0x00, 0x00, 0x00, 0x00]),
    (1_284_263, [0xb5, 0xc0, 0x04, 0x00, 0x00, 0x00, 0x00, 0x00]),
    (1_290_266, [0xb5, 0xc0, 0x08, 0x00, 0x00, 0x00, 0x00, 0x00]),
    (1_296_260, [0xb5, 0xc0, 0x0c, 0x00, 0x00, 0x00, 0x00, 0x00]),
    (1_302_277, [0xb5, 0xc0, 0x10, 0x00, 0x00, 0x00, 0x00, 0x00]),
    (1_308_275, [0xb5, 0xc0, 0x14, 0x00, 0x00, 0x00, 0x00, 0x00]),
    (1_314_273, [0xb5, 0xc0, 0x18, 0x00, 0x00, 0x00, 0x00, 0x00]),
    (1_320_267, [0xb5, 0xc0, 0x1c, 0x00, 0x00, 0x00, 0x00, 0x00]),
    (1_326_310, [0xb5, 0xc0, 0x20, 0x00, 0x00, 0x00, 0x00, 0x00]),
    (1_332_273, [0xb5, 0xc0, 0x24, 0x00, 0x00, 0x00, 0x00, 0x00]),
    (1_338_269, [0xb5, 0xc0, 0x28, 0x00, 0x00, 0x00, 0x00, 0x00]),
    (1_344_275, [0xb5, 0xc0, 0x2c, 0x00, 0x00, 0x00, 0x00, 0x00]),
    (1_350_267, [0xb5, 0xc0, 0x30, 0x00, 0x00, 0x00, 0x00, 0x00]),
    (1_356_273, [0xb5, 0xc0, 0x34, 0x00, 0x00, 0x00, 0x00, 0x00]),
    (1_362_265, [0xb5, 0xc0, 0x38, 0x00, 0x00, 0x00, 0x00, 0x00]),
    (1_368_285, [0xb5, 0xc0, 0x3c, 0x00, 0x00, 0x00, 0x00, 0x00]),
    (1_374_269, [0xb5, 0xc0, 0x40, 0x00, 0x00, 0x00, 0x00, 0x00]),
    (1_380_343, [0xb5, 0xc0, 0x44, 0x00, 0x00, 0x00, 0x00, 0x00]),
    (1_386_272, [0xb5, 0xc0, 0x48, 0x00, 0x00, 0x00, 0x00, 0x00]),
    (1_392_274, [0xb5, 0xc0, 0x4c, 0x00, 0x00, 0x00, 0x00, 0x00]),
    (1_398_274, [0xb5, 0xc0, 0x50, 0x00, 0x00, 0x00, 0x00, 0x00]),
    (1_404_265, [0xb5, 0xc0, 0x54, 0x00, 0x00, 0x00, 0x00, 0x00]),
    (1_410_274, [0xb5, 0xc0, 0x58, 0x00, 0x00, 0x00, 0x00, 0x00]),
    (1_416_265, [0xb5, 0xc0, 0x5c, 0x00, 0x00, 0x00, 0x00, 0x00]),
    (1_422_307, [0xb5, 0xc0, 0x60, 0x00, 0x00, 0x00, 0x00, 0x00]),
    (1_428_268, [0xb5, 0xc0, 0x64, 0x00, 0x00, 0x00, 0x00, 0x00]),
    (1_434_268, [0xb5, 0xc0, 0x68, 0x00, 0x00, 0x00, 0x00, 0x00]),
    (1_440_273, [0xb5, 0xc0, 0x6c, 0x00, 0x00, 0x00, 0x00, 0x00]),
    (1_446_266, [0xb5, 0xc0, 0x70, 0x00, 0x00, 0x00, 0x00, 0x00]),
    (1_452_269, [0xb5, 0xc0, 0x74, 0x00, 0x00, 0x00, 0x00, 0x00]),
    (1_458_271, [0xb5, 0xc0, 0x78, 0x00, 0x00, 0x00, 0x00, 0x00]),
    (1_464_277, [0xb5, 0xc0, 0x7c, 0x00, 0x00, 0x00, 0x00, 0x00]),
    (1_472_005, [0xf5, 0x00, 0x1f, 0xe0, 0x00, 0x00, 0x00, 0x00]),
    (1_477_268, [0xf5, 0x00, 0x1f, 0xe8, 0x00, 0x00, 0x00, 0x00]),
    (1_483_277, [0xf5, 0x00, 0x1f, 0xf0, 0x00, 0x00, 0x00, 0x00]),
    (1_489_317, [0xf5, 0x00, 0x1f, 0xf8, 0x00, 0x00, 0x00, 0x00]),
    (1_495_275, [0xb5, 0x00, 0x32, 0x00, 0x00, 0x00, 0x00, 0x00]),
    (1_512_517, [0xa6, 0x05, 0x00, 0x00, 0x00, 0x00, 0x00, 0x00]),
    (1_525_644, [0xb5, 0xc5, 0x55, 0x00, 0x00, 0x00, 0x00, 0x00]),
    (1_531_284, [0xb5, 0xf0, 0x05, 0x00, 0x00, 0x00, 0x00, 0x00]),
    (1_537_289, [0xb6, 0xf0, 0x05, 0x00, 0x00, 0x00, 0x00, 0x00]),
    (1_540_264, [0xa6, 0x04, 0x00, 0x00, 0x00, 0x00, 0x00, 0x00]),
    (1_554_062, [0xb5, 0xc5, 0x55, 0x00, 0x00, 0x00, 0x00, 0x00]),
    (1_682_472, [0xb5, 0x00, 0x32, 0x00, 0x00, 0x00, 0x00, 0x00]),
    (1_688_327, [0xa6, 0x03, 0x03, 0x00, 0x00, 0x00, 0x00, 0x00]),
    (1_713_905, [0xb5, 0xc5, 0x58, 0x00, 0x00, 0x00, 0x00, 0x00]),
    (1_719_281, [0xa6, 0x01, 0x01, 0xe0, 0x01, 0xe0, 0x22, 0x00]),
    (1_745_227, [0xb5, 0xc5, 0x55, 0x00, 0x00, 0x00, 0x00, 0x00]),
    (1_750_285, [0xa6, 0x02, 0x8f, 0x00, 0x01, 0xe0, 0x01, 0xe0]),
    (1_776_715, [0xb5, 0xc5, 0x57, 0x00, 0x00, 0x00, 0x00, 0x00]),
    (1_791_946, [0xb5, 0xc5, 0x57, 0x00, 0x00, 0x00, 0x00, 0x00]),
    (1_807_475, [0xb5, 0xc5, 0x57, 0x00, 0x00, 0x00, 0x00, 0x00]),
    (1_823_209, [0xb5, 0xc5, 0x57, 0x00, 0x00, 0x00, 0x00, 0x00]),
    (1_838_572, [0xb5, 0xc5, 0x57, 0x00, 0x00, 0x00, 0x00, 0x00]),
    (1_844_276, [0xa6, 0x04, 0x01, 0x00, 0x00, 0x00, 0x00, 0x00]),
    (1_869_866, [0xb5, 0xc5, 0x55, 0x00, 0x00, 0x00, 0x00, 0x00]),
    (2_010_816, [0xb6, 0xf2, 0x4e, 0x00, 0x00, 0x00, 0x00, 0x00]),
    (2_181_958, [0xb5, 0x00, 0x32, 0x00, 0x00, 0x00, 0x00, 0x00]),
    (2_524_434, [0xb5, 0xf2, 0x42, 0x00, 0x00, 0x00, 0x00, 0x00]),
];

/// The control reports that switch the picture on once the first frame has been sent.
pub const POST_FIRST_FRAME_REPORTS: [[u8; 8]; 4] = [
    [0xb5, 0xf0, 0x05, 0x00, 0x00, 0x00, 0x00, 0x00],
    [0xb6, 0xf0, 0x05, 0x10, 0x00, 0x00, 0x00, 0x00],
    [0xa6, 0x05, 0x01, 0x00, 0x00, 0x00, 0x00, 0x00],
    [0xb5, 0xc5, 0x55, 0x00, 0x00, 0x00, 0x00, 0x00],
];

/// How long to wait after each of the reports that switch the picture on, in microseconds.
pub const ENABLE_PAUSE_MICROS: u64 = 3_000;

/// How long a write to the display may take, in milliseconds.
pub const WRITE_TIMEOUT_MS: i32 = 5_000;

/// The part of a device path that names the display.
pub const TARGET_ID: &'static str = "vid_345f&pid_9132";

/// A hexadecimal digit.
pub open spec fn is_hex_digit(value: u8) -> bool {
    48 <= value <= 57 || 97 <= value <= 102
}

/// What a hexadecimal digit stands for.
pub open spec fn nibble_value(value: u8) -> int {
    if value <= 57 {
        value - 48
    } else {
        value - 87
    }
}

/// What a hexadecimal digit stands for.
pub fn nibble(value: u8) -> (result: u8)
    requires
        is_hex_digit(value),
    ensures
        result == nibble_value(value),
        result < 16,
{
    if value <= 57 {
        value - 48
    } else {
        value - 87
    }
}

/// The eight bytes that sixteen hexadecimal digits stand for.
pub fn report(hex: &[u8; 16]) -> (output: [u8; 8])
    requires
        forall|i: int| 0 <= i < 16 ==> is_hex_digit(#[trigger] hex@[i]),
    ensures
        forall|i: int|
            0 <= i < 8 ==> #[trigger] output@[i] == 16 * nibble_value(hex@[2 * i]) + nibble_value(
                hex@[2 * i + 1],
            ),
{
    let mut output: [u8; 8] = [0; 8];
    let mut index: usize = 0;
    while index < 8
        invariant
            index <= 8,
            forall|i: int| 0 <= i < 16 ==> is_hex_digit(#[trigger] hex@[i]),
            forall|i: int|
                0 <= i < index ==> #[trigger] output@[i] == 16 * nibble_value(hex@[2 * i])
                    + nibble_value(hex@[2 * i + 1]),
        decreases 8 - index,
    {
        output[index] = nibble(hex[2 * index]) * 16 + nibble(hex[2 * index + 1]);
        index = index + 1;
    }
    output
}

/// A report that asks for an answer.
pub open spec fn expects_reply(payload: Seq<u8>) -> bool {
    payload[0] == 0xb5 || payload[0] == 0xf5
}

/// One report to send.
#[derive(Clone, Copy, Debug)]
pub struct ReportStep {
    /// How long to wait before it is sent, in microseconds.
    pub wait_micros: u64,
    /// The report, with the report number in front.
    pub report: [u8; 9],
    /// An answer is read after it.
    pub reply: bool,
    /// How long to wait afterwards, in microseconds.
    pub pause_micros: u64,
}

/// The bytes of a report: the report number, which is zero, and the payload.
pub open spec fn framed(payload: Seq<u8>) -> Seq<u8> {
    seq![0u8] + payload
}

/// Puts the report number in front of a payload, and tells whether an answer is read after it.
pub fn issue(payload: [u8; 8]) -> (issued: ([u8; 9], bool))
    ensures
        issued.0@ == framed(payload@),
        issued.1 == expects_reply(payload@),
{
    let report: [u8; 9] = [
        0,
        payload[0],
        payload[1],
        payload[2],
        payload[3],
        payload[4],
        payload[5],
        payload[6],
        payload[7],
    ];
    proof {
        assert(report@ =~= framed(payload@));
    }
    (report, payload[0] == 0xb5 || payload[0] == 0xf5)
}

/// The report number `index` of the start, `elapsed_micros` after the start began.
pub fn initialize(index: usize, elapsed_micros: u64) -> (step: Option<ReportStep>)
    ensures
        step is Some <==> index < 81,
        step matches Some(step) ==> {
            let (target, payload) = STARTUP_REPORTS@[index as int];
            &&& step.wait_micros == if target > elapsed_micros {
                target - elapsed_micros
            } else {
                0
            }
            &&& step.report@ == framed(payload@)
            &&& step.reply == expects_reply(payload@)
            &&& step.pause_micros == 0
        },
{
    if index >= 81 {
        return None;
    }
    let (target, payload) = STARTUP_REPORTS[index];
    let wait_micros: u64 = if target as u64 > elapsed_micros {
        target as u64 - elapsed_micros
    } else {
        0
    };
    let (report, reply) = issue(payload);
    Some(ReportStep { wait_micros, report, reply, pause_micros: 0 })
}

/// The report number `index` of those that switch the picture on.
pub fn enable_after_first_frame(index: usize) -> (step: Option<ReportStep>)
    ensures
        step is Some <==> index < 4,
        step matches Some(step) ==> {
            let payload = POST_FIRST_FRAME_REPORTS@[index as int];
            &&& step.wait_micros == 0
            &&& step.report@ == framed(payload@)
            &&& step.reply == expects_reply(payload@)
            &&& step.pause_micros == ENABLE_PAUSE_MICROS
        },
{
    if index >= 4 {
        return None;
    }
    let (report, reply) = issue(POST_FIRST_FRAME_REPORTS[index]);
    Some(ReportStep { wait_micros: 0, report, reply, pause_micros: ENABLE_PAUSE_MICROS })
}

/// The writing of a frame in chunks.
#[derive(Clone, Copy, Debug)]
pub struct BulkTransfer {
    /// The number of bytes in all.
    pub length: usize,
    /// The first byte of the chunk that is being written.
    pub chunk: usize,
    /// The number of bytes of that chunk that have been written.
    pub offset: usize,
}

/// The number of bytes in the chunk that starts at `chunk`.
pub open spec fn chunk_length(length: int, chunk: int) -> int {
    if length - chunk < CHUNK_SIZE {
        length - chunk
    } else {
        CHUNK_SIZE as int
    }
}

impl BulkTransfer {
    /// Chunks start at multiples of their size, and the chunk that is being written is not finished.
    pub open spec fn wf(self) -> bool {
        &&& self.chunk <= self.length
        &&& self.chunk < self.length ==> self.chunk as int % CHUNK_SIZE as int == 0
        &&& self.chunk < self.length ==> self.offset < chunk_length(
            self.length as int,
            self.chunk as int,
        )
        &&& self.chunk == self.length ==> self.offset == 0
    }

    /// The number of bytes that have been written.
    pub open spec fn sent(self) -> int {
        self.chunk + self.offset
    }

    /// The number of bytes that are handed over next: the rest of the chunk.
    pub open spec fn rest(self) -> int {
        chunk_length(self.length as int, self.chunk as int) - self.offset
    }

    /// Begins to write a frame of `length` bytes.
    pub fn new(length: usize) -> (transfer: BulkTransfer)
        ensures
            transfer.wf(),
            transfer.length == length,
            transfer.sent() == 0,
    {
        BulkTransfer { length, chunk: 0, offset: 0 }
    }

    /// The bytes to hand over next: the position of the first and their number; `None` if all have
    /// been written.
    pub fn pending(&self) -> (range: Option<(usize, usize)>)
        requires
            self.wf(),
        ensures
            match range {
                None => self.sent() == self.length,
                Some((start, count)) => {
                    &&& start == self.sent()
                    &&& count == self.rest()
                    &&& 0 < count <= CHUNK_SIZE
                    &&& start + count <= self.length
                },
            },
    {
        if self.chunk == self.length {
            return None;
        }
        let left: usize = self.length - self.chunk;
        let size: usize = if left < CHUNK_SIZE {
            left
        } else {
            CHUNK_SIZE
        };
        Some((self.chunk + self.offset, size - self.offset))
    }

    /// Takes note of what came of handing over the pending bytes: the number of them that were
    /// written, or no positive number if that failed.
    pub fn accept(&mut self, written: i32) -> (outcome: Result<(), i32>)
        requires
            old(self).wf(),
            old(self).sent() < old(self).length,
        ensures
            final(self).wf(),
            final(self).length == old(self).length,
            written <= 0 ==> outcome == Err::<(), i32>(written) && *final(self) == *old(self),
            written > 0 ==> outcome == Ok::<(), i32>(()) && final(self).sent() == old(self).sent()
                + (if written < old(self).rest() {
                written as int
            } else {
                old(self).rest()
            }),
    {
        if written <= 0 {
            return Err(written);
        }
        let left: usize = self.length - self.chunk;
        let size: usize = if left < CHUNK_SIZE {
            left
        } else {
            CHUNK_SIZE
        };
        if (written as usize) < size - self.offset {
            self.offset = self.offset + written as usize;
        } else {
            self.chunk = self.chunk + size;
            self.offset = 0;
        }
        Ok(())
    }
}

/// The transfer has gone on from `before` to `after`: some of the bytes that were handed over have been
/// written.
pub open spec fn transfer_follows(before: BulkTransfer, after: BulkTransfer) -> bool {
    &&& after.length == before.length
    &&& before.sent() < after.sent() <= before.sent() + before.rest()
}

/// `transfers` are the states of one transfer of `length` bytes from its start on.
pub open spec fn is_transfer(transfers: Seq<BulkTransfer>, length: int) -> bool {
    &&& transfers.len() > 0
    &&& transfers[0].sent() == 0
    &&& transfers[0].length == length
    &&& forall|i: int| 0 <= i < transfers.len() ==> (#[trigger] transfers[i]).wf()
    &&& forall|i: int|
        0 < i < transfers.len() ==> transfer_follows(transfers[i - 1], #[trigger] transfers[i])
}

/// What the device took in the course of a transfer of `data`: at each step the first of the bytes
/// that were handed over.
pub open spec fn bytes_taken(data: Seq<u8>, transfers: Seq<BulkTransfer>) -> Seq<u8>
    decreases transfers.len(),
{
    if transfers.len() <= 1 {
        seq![]
    } else {
        let before = transfers[transfers.len() - 2];
        let handed_over = data.subrange(before.sent(), before.sent() + before.rest());
        bytes_taken(data, transfers.drop_last()) + handed_over.take(
            transfers.last().sent() - before.sent(),
        )
    }
}

/// The device takes the bytes of a frame in order, each exactly once: a transfer that has come to its
/// end has written the whole frame.
pub proof fn lemma_transfer_writes_the_frame(data: Seq<u8>, transfers: Seq<BulkTransfer>)
    requires
        is_transfer(transfers, data.len() as int),
    ensures
        bytes_taken(data, transfers) == data.take(transfers.last().sent()),
        transfers.last().sent() == data.len() ==> bytes_taken(data, transfers) == data,
    decreases transfers.len(),
{
    if transfers.len() == 1 {
        assert(data.take(0) =~= Seq::<u8>::empty());
    } else {
        let earlier = transfers.drop_last();
        let before = transfers[transfers.len() - 2];
        let after = transfers.last();
        assert(earlier.last() == before);
        assert(is_transfer(earlier, data.len() as int)) by {
            assert forall|i: int| 0 <= i < earlier.len() implies (#[trigger] earlier[i]).wf() by {
                assert(transfers[i].wf());
            }
            assert forall|i: int| 0 < i < earlier.len() implies transfer_follows(
                earlier[i - 1],
                #[trigger] earlier[i],
            ) by {
                assert(transfer_follows(transfers[i - 1], transfers[i]));
            }
        }
        lemma_transfer_writes_the_frame(data, earlier);
        lemma_transfer_length(transfers, data.len() as int, transfers.len() - 2);
        assert(transfer_follows(before, after));
        assert(transfers[transfers.len() - 2].wf());
        lemma_pending_is_inside(before);
        lemma_take_more(data, before.sent(), before.rest(), after.sent() - before.sent());
    }
    assert(data.take(data.len() as int) =~= data);
}

proof fn lemma_pending_is_inside(transfer: BulkTransfer)
    requires
        transfer.wf(),
    ensures
        0 <= transfer.sent(),
        transfer.sent() + transfer.rest() <= transfer.length,
{
}

proof fn lemma_take_more(data: Seq<u8>, start: int, count: int, taken: int)
    requires
        0 <= start,
        0 <= taken <= count,
        start + count <= data.len(),
    ensures
        data.take(start) + data.subrange(start, start + count).take(taken) == data.take(
            start + taken,
        ),
{
    assert(data.take(start) + data.subrange(start, start + count).take(taken) =~= data.take(
        start + taken,
    ));
}

proof fn lemma_transfer_length(transfers: Seq<BulkTransfer>, length: int, index: int)
    requires
        is_transfer(transfers, length),
        0 <= index < transfers.len(),
    ensures
        transfers[index].length == length,
    decreases index,
{
    if index > 0 {
        lemma_transfer_length(transfers, length, index - 1);
        assert(transfer_follows(transfers[index - 1], transfers[index]));
    }
}

/// What is done next to find the video interface and claim it.
#[derive(Clone, Copy, Debug, PartialEq, Eq, Structural)]
pub enum ClaimStep {
    /// Look for the busses.
    FindBusses,
    /// Look for the devices.
    FindDevices,
    /// Take the first device that is a display.
    SelectDevice,
    /// Open it.
    Open,
    /// Claim its interface.
    Claim,
    /// Close it again.
    Close,
    /// It is open.
    Done,
    /// It could not be opened.
    Failed(ClaimError),
}

/// Why the video interface could not be claimed.
#[derive(Clone, Copy, Debug, PartialEq, Eq, Structural)]
pub enum ClaimError {
    FindBusses,
    FindDevices,
    NotFound,
    Open,
    Claim,
}

/// The step after `step`; `result` is what the step gave: a count or a result that is negative on
/// failure, or zero for nothing found or opened.
pub open spec fn claim_next(step: ClaimStep, result: i32) -> ClaimStep {
    match step {
        ClaimStep::FindBusses => if result < 0 {
            ClaimStep::Failed(ClaimError::FindBusses)
        } else {
            ClaimStep::FindDevices
        },
        ClaimStep::FindDevices => if result < 0 {
            ClaimStep::Failed(ClaimError::FindDevices)
        } else {
            ClaimStep::SelectDevice
        },
        ClaimStep::SelectDevice => if result == 0 {
            ClaimStep::Failed(ClaimError::NotFound)
        } else {
            ClaimStep::Open
        },
        ClaimStep::Open => if result == 0 {
            ClaimStep::Failed(ClaimError::Open)
        } else {
            ClaimStep::Claim
        },
        ClaimStep::Claim => if result < 0 {
            ClaimStep::Close
        } else {
            ClaimStep::Done
        },
        ClaimStep::Close => ClaimStep::Failed(ClaimError::Claim),
        _ => step,
    }
}

/// Begins to find and claim the video interface.
pub fn open_target() -> (step: ClaimStep)
    ensures
        step == ClaimStep::FindBusses,
{
    ClaimStep::FindBusses
}

impl ClaimStep {
    /// Goes on after this step.
    pub fn next(self, result: i32) -> (next: ClaimStep)
        ensures
            next == claim_next(self, result),
    {
        match self {
            ClaimStep::FindBusses => {
                if result < 0 {
                    ClaimStep::Failed(ClaimError::FindBusses)
                } else {
                    ClaimStep::FindDevices
                }
            },
            ClaimStep::FindDevices => {
                if result < 0 {
                    ClaimStep::Failed(ClaimError::FindDevices)
                } else {
                    ClaimStep::SelectDevice
                }
            },
            ClaimStep::SelectDevice => {
                if result == 0 {
                    ClaimStep::Failed(ClaimError::NotFound)
                } else {
                    ClaimStep::Open
                }
            },
            ClaimStep::Open => {
                if result == 0 {
                    ClaimStep::Failed(ClaimError::Open)
                } else {
                    ClaimStep::Claim
                }
            },
            ClaimStep::Claim => {
                if result < 0 {
                    ClaimStep::Close
                } else {
                    ClaimStep::Done
                }
            },
            ClaimStep::Close => ClaimStep::Failed(ClaimError::Claim),
            other => other,
        }
    }
}

/// A device descriptor of the display: the vendor in bytes 8 and 9, the product in bytes 10 and 11.
pub fn is_target_descriptor(descriptor: &[u8; 18]) -> (target: bool)
    ensures
        target == (le16(descriptor@, 8) == VID && le16(descriptor@, 10) == PID),
{
    read_u16(descriptor, 8) == VID && read_u16(descriptor, 10) == PID
}

/// What was read of one interface of the control class: the size that its detail needs, whether it
/// was read, and the detail.
#[derive(Debug)]
pub struct InterfaceDetail {
    pub required: u32,
    pub read: bool,
    pub detail: Vec<u8>,
}

/// The 16-bit units behind the first four bytes of a detail.
pub open spec fn detail_units(detail: Seq<u8>) -> Seq<u16> {
    Seq::new(
        if detail.len() >= 4 {
            ((detail.len() - 4) / 2) as nat
        } else {
            0
        },
        |i: int| le16(detail, 4 + 2 * i) as u16,
    )
}

/// The path in a detail.
pub open spec fn detail_path(detail: Seq<u8>) -> Seq<u16> {
    until_nul(detail_units(detail))
}

/// The interface belongs to a display, and its detail was read.
pub open spec fn is_target_interface(interface: InterfaceDetail) -> bool {
    &&& interface.required >= 8
    &&& interface.read
    &&& has_part(detail_path(interface.detail@), utf16(TARGET_ID@))
}

/// The paths of the first `count` interfaces that belong to a display, each with a NUL at its end.
pub open spec fn target_paths(interfaces: Seq<InterfaceDetail>, count: int) -> Seq<Seq<u16>>
    decreases count,
{
    if count <= 0 {
        seq![]
    } else if is_target_interface(interfaces[count - 1]) {
        target_paths(interfaces, count - 1).push(
            detail_path(interfaces[count - 1].detail@).push(0),
        )
    } else {
        target_paths(interfaces, count - 1)
    }
}

/// The path in a detail.
fn path_in_detail(detail: &[u8]) -> (path: Vec<u16>)
    ensures
        path@ == detail_path(detail@),
{
    let mut units: Vec<u16> = Vec::new();
    let length: usize = detail.len();
    let capacity: usize = if length >= 4 {
        (length - 4) / 2
    } else {
        0
    };
    let mut i: usize = 0;
    while i < capacity
        invariant
            i <= capacity,
            length == detail.len(),
            capacity == if length >= 4 {
                (length - 4) / 2
            } else {
                0
            },
            units@.len() == i,
            forall|j: int| 0 <= j < i ==> #[trigger] units@[j] == le16(detail@, 4 + 2 * j) as u16,
        decreases capacity - i,
    {
        units.push(read_u16(detail, 4 + 2 * i));
        i = i + 1;
    }
    proof {
        assert(units@ =~= detail_units(detail@));
    }
    let end: usize = nul_position(&units);
    units.truncate(end);
    units
}

/// The number of bytes to reserve for the detail of an interface, if it is worth reading: it holds
/// more than its own size.
pub fn detail_size(required: u32) -> (size: Option<usize>)
    ensures
        size == if required < 8 {
            None::<usize>
        } else {
            Some(required as usize)
        },
{
    if required < 8 {
        return None;
    }
    Some(required as usize)
}

/// The paths of all interfaces that belong to a display, in order, each with a NUL at its end.
pub fn collect_target_paths(interfaces: &Vec<InterfaceDetail>) -> (paths: Vec<Vec<u16>>)
    ensures
        paths@.len() == target_paths(interfaces@, interfaces@.len() as int).len(),
        forall|i: int|
            0 <= i < paths@.len() ==> (#[trigger] paths@[i])@ == target_paths(
                interfaces@,
                interfaces@.len() as int,
            )[i],
{
    let target = encode_utf16(TARGET_ID);
    let mut paths: Vec<Vec<u16>> = Vec::new();
    let mut i: usize = 0;
    while i < interfaces.len()
        invariant
            i <= interfaces@.len(),
            target@ == utf16(TARGET_ID@),
            paths@.len() == target_paths(interfaces@, i as int).len(),
            forall|j: int|
                0 <= j < paths@.len() ==> (#[trigger] paths@[j])@ == target_paths(
                    interfaces@,
                    i as int,
                )[j],
        decreases interfaces@.len() - i,
    {
        if detail_size(interfaces[i].required).is_some() && interfaces[i].read {
            let mut path = path_in_detail(&interfaces[i].detail);
            if contains_ignoring_case(&path, &target) {
                path.push(0);
                paths.push(path);
            }
        }
        i = i + 1;
    }
    paths
}

/// Why the display is not opened: these numbers of control and video interfaces were found.
#[derive(Clone, Copy, Debug, PartialEq, Eq, Structural)]
pub struct DeviceCount {
    pub hid: usize,
    pub bulk: usize,
}

/// The display.
#[derive(Clone, Copy, Debug, PartialEq, Eq, Structural)]
pub struct Tm360;

impl Tm360 {
    /// Opens the display.  Exactly one has to be there.
    pub fn open(hid: usize, bulk: usize) -> (display: Result<Tm360, DeviceCount>)
        ensures
            display == if hid == 1 && bulk == 1 {
                Ok(Tm360)
            } else {
                Err(DeviceCount { hid, bulk })
            },
    {
        if hid != 1 || bulk != 1 {
            return Err(DeviceCount { hid, bulk });
        }
        Ok(Tm360)
    }

    /// Begins to start the display.
    pub fn start(&self) -> (step: DeviceStep)
        ensures
            step == DeviceStep::Initialize,
    {
        DeviceStep::Initialize
    }

    /// Begins to write a frame.
    pub fn send_packet(&self, packet: &[u8]) -> (transfer: BulkTransfer)
        ensures
            transfer.wf(),
            transfer.length == packet@.len(),
            transfer.sent() == 0,
    {
        BulkTransfer::new(packet.len())
    }
}

/// What is done next to start the display.
#[derive(Clone, Copy, Debug, PartialEq, Eq, Structural)]
pub enum DeviceStep {
    /// Send the control reports of the start.
    Initialize,
    /// Claim the video interface.
    ClaimVideo,
    /// Write the first frame.
    WriteFrame,
    /// Write the first frame again.
    WriteFrameAgain,
    /// Send the control reports that switch the picture on.
    Enable,
    /// The display shows the frame.
    Done,
    /// The display could not be started.
    Failed,
}

/// The step after `step`.
pub open spec fn device_next(step: DeviceStep, succeeded: bool) -> DeviceStep {
    match step {
        DeviceStep::Done => DeviceStep::Done,
        DeviceStep::Failed => DeviceStep::Failed,
        _ => if !succeeded {
            DeviceStep::Failed
        } else {
            match step {
                DeviceStep::Initialize => DeviceStep::ClaimVideo,
                DeviceStep::ClaimVideo => DeviceStep::WriteFrame,
                DeviceStep::WriteFrame => DeviceStep::WriteFrameAgain,
                DeviceStep::WriteFrameAgain => DeviceStep::Enable,
                _ => DeviceStep::Done,
            }
        },
    }
}

impl DeviceStep {
    /// Goes on after this step.
    pub fn next(self, succeeded: bool) -> (next: DeviceStep)
        ensures
            next == device_next(self, succeeded),
    {
        match self {
            DeviceStep::Done => DeviceStep::Done,
            DeviceStep::Failed => DeviceStep::Failed,
            other => {
                if !succeeded {
                    return DeviceStep::Failed;
                }
                match other {
                    DeviceStep::Initialize => DeviceStep::ClaimVideo,
                    DeviceStep::ClaimVideo => DeviceStep::WriteFrame,
                    DeviceStep::WriteFrame => DeviceStep::WriteFrameAgain,
                    DeviceStep::WriteFrameAgain => DeviceStep::Enable,
                    _ => DeviceStep::Done,
                }
            },
        }
    }
}

/// What came of looking for the video interface.
#[derive(Debug)]
pub enum UsbOutcome {
    /// This number of devices was found.
    Count(usize),
    /// The devices could not be listed, for this reason.
    ListFailed(String),
    /// The library could not be loaded, for this reason.
    LoadFailed(String),
}

/// What is said of the control interface.
pub open spec fn hid_line(hid: Result<usize, String>) -> Seq<char> {
    match hid {
        Ok(count) => if count == 0 {
            "HID 控制接口：未发现"@
        } else {
            "HID 控制接口：已发现 "@ + decimal(count as nat) + " 个匹配接口"@
        },
        Err(error) => "HID 控制接口：枚举失败（"@ + error@ + "）"@,
    }
}

/// What is said of the video interface.
pub open spec fn usb_line(usb: UsbOutcome) -> Seq<char> {
    match usb {
        UsbOutcome::Count(count) => if count == 0 {
            "libusb0 视频接口：未发现"@
        } else {
            "libusb0 视频接口：已发现 "@ + decimal(count as nat) + " 个 345F:9132 设备"@
        },
        UsbOutcome::ListFailed(error) => "libusb0 视频接口：枚举失败（"@ + error@ + "）"@,
        UsbOutcome::LoadFailed(error) => "libusb0：无法加载（"@ + error@ + "）"@,
    }
}

fn text_around(before: &str, middle: &str, after: &str) -> (text: String)
    ensures
        text@ == before@ + middle@ + after@,
{
    let mut text = before.to_owned();
    text.append(middle);
    text.append(after);
    text
}

fn number_text(value: usize) -> (text: String)
    ensures
        text@ == decimal(value as nat),
{
    let mut text = String::new();
    push_decimal(&mut text, value as u64);
    proof {
        assert(text@ =~= decimal(value as nat));
    }
    text
}

/// Two lines that say what was found of the display.
pub fn diagnostic_lines(hid: &Result<usize, String>, usb: &UsbOutcome) -> (lines: Vec<String>)
    ensures
        lines@.len() == 2,
        lines@[0]@ == hid_line(*hid),
        lines@[1]@ == usb_line(*usb),
{
    let mut lines: Vec<String> = Vec::new();
    let first = match hid {
        Ok(count) => {
            if *count == 0 {
                "HID 控制接口：未发现".to_owned()
            } else {
                let number = number_text(*count);
                text_around("HID 控制接口：已发现 ", number.as_str(), " 个匹配接口")
            }
        },
        Err(error) => text_around("HID 控制接口：枚举失败（", error.as_str(), "）"),
    };
    lines.push(first);
    let second = match usb {
        UsbOutcome::Count(count) => {
            if *count == 0 {
                "libusb0 视频接口：未发现".to_owned()
            } else {
                let number = number_text(*count);
                text_around(
                    "libusb0 视频接口：已发现 ",
                    number.as_str(),
                    " 个 345F:9132 设备",
                )
            }
        },
        UsbOutcome::ListFailed(error) => {
            text_around("libusb0 视频接口：枚举失败（", error.as_str(), "）")
        },
        UsbOutcome::LoadFailed(error) => text_around("libusb0：无法加载（", error.as_str(), "）"),
    };
    lines.push(second);
    lines
}

/// The times of the start never go back.
pub proof fn lemma_startup_is_in_order(i: int, j: int)
    requires
        0 <= i <= j < 81,
    ensures
        STARTUP_REPORTS@[i].0 <= STARTUP_REPORTS@[j].0,
{
}

/// A report that is written with two hexadecimal digits for each byte holds these bytes.
pub proof fn lemma_report_is_its_digits(hex: &[u8; 16], output: [u8; 8], i: int, high: int, low: int)
    requires
        forall|j: int|
            0 <= j < 16 ==> 48 <= #[trigger] hex@[j] <= 57 || 97 <= hex@[j] <= 102,
        call_ensures(report, (hex,), output),
        0 <= i < 8,
        0 <= high < 16,
        0 <= low < 16,
        hex@[2 * i] == if high < 10 {
            48 + high
        } else {
            97 + (high - 10)
        },
        hex@[2 * i + 1] == if low < 10 {
            48 + low
        } else {
            97 + (low - 10)
        },
    ensures
        output@[i] == 16 * high + low,
{
}

/// A report is sent behind a zero byte; the two kinds that ask for something are answered.
pub proof fn lemma_report_is_framed(payload: [u8; 8], issued: ([u8; 9], bool), i: int)
    requires
        call_ensures(issue, (payload,), issued),
        0 <= i < 8,
    ensures
        issued.0@[0] == 0,
        issued.0@[i + 1] == payload@[i],
        issued.1 <==> payload@[0] == 0xb5 || payload@[0] == 0xf5,
{
}

/// The reports of the start are sent in turn, each at its time after the start or later, and framed as
/// any other; those that switch the picture on are sent at once, three milliseconds apart.
pub proof fn lemma_reports_are_sent_in_turn(
    index: usize,
    elapsed_micros: u64,
    step: Option<ReportStep>,
    issued: ([u8; 9], bool),
    enabling: Option<ReportStep>,
    enabling_issued: ([u8; 9], bool),
)
    requires
        call_ensures(initialize, (index, elapsed_micros), step),
        index < 81 ==> call_ensures(issue, (STARTUP_REPORTS@[index as int].1,), issued),
        call_ensures(enable_after_first_frame, (index,), enabling),
        index < 4 ==> call_ensures(issue, (POST_FIRST_FRAME_REPORTS@[index as int],), enabling_issued),
    ensures
        index >= 81 ==> step is None,
        index < 81 ==> step is Some,
        step matches Some(step) ==> {
            let target = STARTUP_REPORTS@[index as int].0;
            &&& elapsed_micros < target ==> elapsed_micros + step.wait_micros == target
            &&& elapsed_micros >= target ==> step.wait_micros == 0
            &&& step.report@ == issued.0@
            &&& step.reply == issued.1
            &&& step.pause_micros == 0
        },
        index >= 4 ==> enabling is None,
        index < 4 ==> enabling is Some,
        enabling matches Some(enabling) ==> {
            &&& enabling.wait_micros == 0
            &&& enabling.report@ == enabling_issued.0@
            &&& enabling.reply == enabling_issued.1
            &&& enabling.pause_micros == 3_000
        },
{
}

/// A transfer begins with its first byte and goes on, chunk by chunk of 65,536 bytes, until nothing is
/// left: what is offered next begins behind what was taken, and ends with the chunk or with the data.
pub proof fn lemma_transfer_offers_chunks(
    length: usize,
    begun: BulkTransfer,
    begun_range: Option<(usize, usize)>,
    transfer: &mut BulkTransfer,
    before: Option<(usize, usize)>,
    written: i32,
    outcome: Result<(), i32>,
    after: Option<(usize, usize)>,
)
    requires
        call_ensures(BulkTransfer::new, (length,), begun),
        call_ensures(BulkTransfer::pending, (&begun,), begun_range),
        old(transfer).wf(),
        call_ensures(BulkTransfer::pending, (old(transfer),), before),
        before is Some,
        call_ensures(BulkTransfer::accept, (transfer, written), outcome),
        call_ensures(BulkTransfer::pending, (final(transfer),), after),
    ensures
        length == 0 ==> begun_range is None,
        length > 0 ==> begun_range is Some && (begun_range->0).0 == 0 && (begun_range->0).1 == (if length
            < 65_536 {
            length
        } else {
            65_536
        }),
        begun.length == length,
        ({
            let (start, count) = before->0;
            &&& 0 < count <= 65_536
            &&& start + count <= old(transfer).length
            &&& start + count == old(transfer).length || (start + count) % 65_536 == 0
            &&& start as int / 65_536 == (start + count - 1) / 65_536
            &&& written <= 0 ==> outcome == Err::<(), i32>(written) && after == before
            &&& written > 0 ==> outcome is Ok && final(transfer).length == old(transfer).length
            &&& 0 < written < count ==> after is Some && (after->0).0 == start + written && (after->0).1
                == count - written
            &&& written >= count && start + count < old(transfer).length ==> after is Some
                && (after->0).0 == start + count
            &&& written >= count && start + count == old(transfer).length ==> after is None
        }),
{
    let (start, count) = before->0;
    let chunk = old(transfer).chunk as int;
    assert(chunk % 65_536 == 0);
    assert(chunk == 65_536 * (chunk / 65_536));
    assert(start as int / 65_536 == chunk / 65_536);
    assert((start + count - 1) / 65_536 == chunk / 65_536);
    if start + count != old(transfer).length {
        assert(start + count == chunk + 65_536);
        assert((chunk + 65_536) % 65_536 == 0);
    }
    let next = *final(transfer);
    if 0 < written < count {
        assert(next.sent() == start + written);
        let next_chunk = next.chunk as int;
        assert(next.chunk < next.length);
        assert(next_chunk == 65_536 * (next_chunk / 65_536));
        assert(next_chunk <= start + written < next_chunk + 65_536);
        assert(chunk <= start + written < chunk + 65_536);
        assert(next_chunk == chunk);
    }
}

/// The interface is claimed step by step; whatever is missing on the way is told, and a display that
/// cannot be claimed is closed first.
pub proof fn lemma_interface_is_claimed(first: ClaimStep, step: ClaimStep, result: i32, next: ClaimStep)
    requires
        call_ensures(open_target, (), first),
        call_ensures(ClaimStep::next, (step, result), next),
    ensures
        first is FindBusses,
        result >= 0 ==> {
            &&& step is FindBusses ==> next is FindDevices
            &&& step is FindDevices ==> next is SelectDevice
            &&& step is Claim ==> next is Done
        },
        result < 0 ==> {
            &&& step is FindBusses ==> next == ClaimStep::Failed(ClaimError::FindBusses)
            &&& step is FindDevices ==> next == ClaimStep::Failed(ClaimError::FindDevices)
            &&& step is Claim ==> next is Close
        },
        result == 0 ==> {
            &&& step is SelectDevice ==> next == ClaimStep::Failed(ClaimError::NotFound)
            &&& step is Open ==> next == ClaimStep::Failed(ClaimError::Open)
        },
        result != 0 ==> {
            &&& step is SelectDevice ==> next is Open
            &&& step is Open ==> next is Claim
        },
        step is Close ==> next == ClaimStep::Failed(ClaimError::Claim),
        step is Done || step is Failed ==> next == step,
{
}

/// A display is told by its vendor 345F and its product 9132, which stand at 8 and 10, low byte first.
pub proof fn lemma_display_is_told_by_its_numbers(descriptor: &[u8; 18], target: bool)
    requires
        call_ensures(is_target_descriptor, (descriptor,), target),
    ensures
        target <==> descriptor@[8] == 0x5f && descriptor@[9] == 0x34 && descriptor@[10] == 0x32
            && descriptor@[11] == 0x91,
{
}

/// A description that is too short to hold a path is not asked for, and any other with its own size.
pub proof fn lemma_description_is_asked_for(required: u32, size: Option<usize>)
    requires
        call_ensures(detail_size, (required,), size),
    ensures
        required < 8 ==> size is None,
        required >= 8 ==> size is Some && size->0 == required,
{
}

/// One more interface adds its path exactly if it could be described and its path names the display; the
/// paths before it stay as they are.
pub proof fn lemma_interfaces_of_the_display(
    interfaces: &Vec<InterfaceDetail>,
    more: &Vec<InterfaceDetail>,
    added: InterfaceDetail,
    paths: Vec<Vec<u16>>,
    more_paths: Vec<Vec<u16>>,
    path: Seq<u16>,
)
    requires
        more@ == interfaces@.push(added),
        call_ensures(collect_target_paths, (interfaces,), paths),
        call_ensures(collect_target_paths, (more,), more_paths),
        added.detail@.len() == 4 + 2 * path.len() + 2,
        forall|i: int|
            0 <= i < path.len() ==> #[trigger] path[i] != 0 && path[i] == added.detail@[4 + 2 * i] + 256
                * added.detail@[5 + 2 * i],
        added.detail@[4 + 2 * path.len() as int] == 0 && added.detail@[5 + 2 * path.len() as int] == 0,
    ensures
        interfaces@.len() == 0 ==> paths@.len() == 0,
        forall|i: int| 0 <= i < paths@.len() ==> (#[trigger] more_paths@[i])@ == paths@[i]@,
        added.required >= 8 && added.read && has_part(path, utf16("vid_345f&pid_9132"@)) ==> {
            &&& more_paths@.len() == paths@.len() + 1
            &&& more_paths@[paths@.len() as int]@ == path.push(0)
        },
        added.required < 8 || !added.read || !has_part(path, utf16("vid_345f&pid_9132"@))
            ==> more_paths@.len() == paths@.len(),
{
    let count = interfaces@.len() as int;
    lemma_paths_before(interfaces@, added, count);
    let units = detail_units(added.detail@);
    assert(units.len() == path.len() + 1);
    assert forall|i: int| 0 <= i < path.len() implies #[trigger] units[i] == path[i] by {
        assert(path[i] != 0);
    }
    assert(path =~= units.subrange(0, path.len() as int));
    lemma_text_before_nul(units, path);
    assert(more@[count] == added);
    assert forall|i: int| 0 <= i < paths@.len() implies (#[trigger] more_paths@[i])@
        == paths@[i]@ by {
        assert(target_paths(more@, count + 1)[i] == target_paths(interfaces@, count)[i]);
        assert(paths@[i]@ == target_paths(interfaces@, count)[i]);
    }
}

proof fn lemma_paths_before(interfaces: Seq<InterfaceDetail>, added: InterfaceDetail, count: int)
    requires
        0 <= count <= interfaces.len(),
    ensures
        target_paths(interfaces.push(added), count) == target_paths(interfaces, count),
    decreases count,
{
    if count > 0 {
        lemma_paths_before(interfaces, added, count - 1);
        assert(interfaces.push(added)[count - 1] == interfaces[count - 1]);
    }
}

/// There must be exactly one interface of each kind; if not, their numbers are told.
pub proof fn lemma_display_has_two_interfaces(
    hid: usize,
    bulk: usize,
    display: Result<Tm360, DeviceCount>,
)
    requires
        call_ensures(Tm360::open, (hid, bulk), display),
    ensures
        display is Ok <==> hid == 1 && bulk == 1,
        display matches Err(count) ==> count.hid == hid && count.bulk == bulk,
{
}

/// The display is started with its reports, its interface, its first frame twice, and the reports that
/// switch the picture on; a step that fails ends it.
pub proof fn lemma_display_is_started(
    display: &Tm360,
    first: DeviceStep,
    claiming: DeviceStep,
    writing: DeviceStep,
    again: DeviceStep,
    enabling: DeviceStep,
    last: DeviceStep,
    step: DeviceStep,
    succeeded: bool,
    next: DeviceStep,
    packet: &[u8],
    transfer: BulkTransfer,
)
    requires
        call_ensures(Tm360::start, (display,), first),
        call_ensures(DeviceStep::next, (first, true), claiming),
        call_ensures(DeviceStep::next, (claiming, true), writing),
        call_ensures(DeviceStep::next, (writing, true), again),
        call_ensures(DeviceStep::next, (again, true), enabling),
        call_ensures(DeviceStep::next, (enabling, true), last),
        call_ensures(DeviceStep::next, (step, succeeded), next),
        call_ensures(Tm360::send_packet, (display, packet), transfer),
    ensures
        first is Initialize,
        claiming is ClaimVideo,
        writing is WriteFrame,
        again is WriteFrameAgain,
        enabling is Enable,
        last is Done,
        !succeeded && !(step is Done) ==> next is Failed,
        step is Done || step is Failed ==> next == step,
        transfer.length == packet@.len(),
        transfer.chunk + transfer.offset == 0,
{
}

/// The report tells how many interfaces were found, that none was, or why they could not be counted.
pub proof fn lemma_report_tells_counts(
    hid: &Result<usize, String>,
    usb: &UsbOutcome,
    lines: Vec<String>,
)
    requires
        call_ensures(diagnostic_lines, (hid, usb), lines),
    ensures
        lines@.len() == 2,
        hid matches Ok(count) ==> (*count == 0 ==> lines@[0]@ == "HID 控制接口：未发现"@),
        hid matches Ok(count) ==> (*count > 0 ==> lines@[0]@ == "HID 控制接口：已发现 "@ + decimal(
            *count as nat,
        ) + " 个匹配接口"@),
        hid matches Err(error) ==> lines@[0]@ == "HID 控制接口：枚举失败（"@ + error@ + "）"@,
        usb matches UsbOutcome::Count(count) ==> (*count == 0 ==> lines@[1]@
            == "libusb0 视频接口：未发现"@),
        usb matches UsbOutcome::Count(count) ==> (*count > 0 ==> lines@[1]@
            == "libusb0 视频接口：已发现 "@ + decimal(*count as nat) + " 个 345F:9132 设备"@),
        usb matches UsbOutcome::ListFailed(error) ==> lines@[1]@ == "libusb0 视频接口：枚举失败（"@
            + error@ + "）"@,
        usb matches UsbOutcome::LoadFailed(error) ==> lines@[1]@ == "libusb0：无法加载（"@ + error@
            + "）"@,
{
}

/// A hexadecimal digit is one of sixteen characters, each of which stands for its number.
pub proof fn lemma_digit_is_its_number(value: u8, number: u8)
    requires
        48 <= value <= 57 || 97 <= value <= 102,
        call_ensures(nibble, (value,), number),
    ensures
        number < 10 ==> value == 48 + number,
        number >= 10 ==> value == 87 + number,
        number < 16,
{
}

/// A report of the start sets, reads or writes something.  What reads has nothing behind the address that it
/// reads, which is two bytes long, or three.
pub proof fn lemma_startup_reads_and_writes(index: usize, elapsed_micros: u64, step: Option<ReportStep>)
    requires
        index < 81,
        call_ensures(initialize, (index, elapsed_micros), step),
    ensures
        step matches Some(step) && {
            let kind = step.report@[1];
            &&& step.report@[0] == 0
            &&& kind == 0xa6 || kind == 0xb5 || kind == 0xb6 || kind == 0xf5
            &&& step.reply <==> kind == 0xb5 || kind == 0xf5
            &&& step.reply ==> step.report@[5] == 0 && step.report@[6] == 0 && step.report@[7] == 0
                && step.report@[8] == 0
            &&& kind == 0xb5 ==> step.report@[4] == 0
        },
{
}

/// The start reads 128 bytes of the display's description four at a time, and the end of its memory eight at
/// a time, before that and after it.
pub proof fn lemma_startup_reads_descriptions(
    k: usize,
    elapsed_micros: u64,
    description: Option<ReportStep>,
    memory: Option<ReportStep>,
    memory_again: Option<ReportStep>,
)
    requires
        k < 32,
        call_ensures(initialize, ((22 + k) as usize, elapsed_micros), description),
        k < 4 ==> call_ensures(initialize, ((9 + k) as usize, elapsed_micros), memory),
        k < 4 ==> call_ensures(initialize, ((54 + k) as usize, elapsed_micros), memory_again),
    ensures
        description matches Some(step) && step.report@[1] == 0xb5 && step.report@[2] == 0xc0
            && step.report@[3] == 4 * k,
        k < 4 ==> (memory matches Some(step) && step.report@[1] == 0xf5 && step.report@[2] == 0
            && step.report@[3] == 0x1f && step.report@[4] == 0xe0 + 8 * k && (
        memory_again matches Some(again) && again.report@ == step.report@)),
{
}

/// The start sets a picture of 480 by 480 pixels, once for what is sent and once for what is shown.
pub proof fn lemma_startup_sets_the_picture(
    elapsed_micros: u64,
    sent: Option<ReportStep>,
    shown: Option<ReportStep>,
)
    requires
        call_ensures(initialize, (68usize, elapsed_micros), sent),
        call_ensures(initialize, (70usize, elapsed_micros), shown),
    ensures
        sent matches Some(step) && step.report@[1] == 0xa6 && step.report@[2] == 1 && 256
            * step.report@[3] + step.report@[4] == 480 && 256 * step.report@[5] + step.report@[6] == 480,
        shown matches Some(step) && step.report@[1] == 0xa6 && step.report@[2] == 2 && step.report@[3]
            == 143 && 256 * step.report@[5] + step.report@[6] == 480 && 256 * step.report@[7]
            + step.report@[8] == 480,
{
}

} // verus!
