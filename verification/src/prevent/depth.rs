//! What the kernel says of the queue.
//!
//! The sensor's own counters can only describe packets it *saw*. The number that
//! matters most under load is the one it never sees: packets the kernel dropped
//! because the queue was full. `/proc/net/netfilter/nfnetlink_queue` has it, with
//! one line per bound queue:
//!
//! ```text
//!   queue_num  peer_portid  queue_total  copy_mode  copy_range  queue_dropped  user_dropped  id_sequence  1
//!      17         12345          3           2        65535          0             0            4271      1
//! ```
//!
//! * `queue_total`: packets queued **right now**, which grows before anything is
//!   dropped.
//! * `queue_dropped`: packets the kernel discarded because the queue was full.
//!   **This is the fail-mode path being taken.**
//! * `user_dropped`: packets discarded because userspace could not be handed
//!   them. Same consequence.

use vstd::prelude::*;
use crate::text::{
    chars_of, decimal, law_a_number_reads_back, lines_of, number, parse_number, split_lines,
    split_words, views, words,
};

verus! {

/// A netlink receive buffer below this many bytes is worth mentioning, not
/// refusing: it leaves packets unjudged under load when whole packets are copied.
pub const MIN_NETLINK_RECV_BUFFER: u64 = 4 * 1_024 * 1_024;

/// The fewest columns of a line that has everything that is read.
pub const MIN_COLUMNS: usize = 7;

/// One queue's counters, as the kernel reports them.
#[derive(Debug, Clone, Copy, PartialEq, Eq, Structural)]
pub struct QueueDepth {
    /// The queue this describes.
    pub queue_num: u16,
    /// Packets queued at this instant.
    pub queued: u32,
    /// Packets the kernel dropped because the queue was full.
    pub queue_dropped: u32,
    /// Packets dropped because they could not be delivered to userspace.
    pub user_dropped: u32,
    /// The kernel's running packet id, useful only for spotting a rebind.
    pub id_sequence: u32,
}

impl Default for QueueDepth {
    fn default() -> (depth: Self)
        ensures
            depth == (QueueDepth {
                queue_num: 0,
                queued: 0,
                queue_dropped: 0,
                user_dropped: 0,
                id_sequence: 0,
            }),
    {
        QueueDepth { queue_num: 0, queued: 0, queue_dropped: 0, user_dropped: 0, id_sequence: 0 }
    }
}

impl QueueDepth {
    /// Packets that never reached a verdict, for whatever reason.
    ///
    /// Both causes have the same consequence, that the fail mode decided instead
    /// of the sensor, so they are added rather than left for a reader to combine.
    pub fn unjudged(&self) -> (count: u64)
        ensures
            count == self.queue_dropped + self.user_dropped,
    {
        self.queue_dropped as u64 + self.user_dropped as u64
    }
}

/// A column as a 32-bit number; what is none counts as zero.
pub open spec fn column(fields: Seq<Seq<char>>, at: int) -> u32 {
    if at < fields.len() {
        match number(fields[at], 10, u32::MAX as int) {
            Some(value) => value as u32,
            None => 0,
        }
    } else {
        0
    }
}

/// What a line says of a queue, where it is that queue's line.
pub open spec fn line_depth(line: Seq<char>, queue: u16) -> Option<QueueDepth> {
    let fields = words(line);
    if fields.len() >= MIN_COLUMNS && number(fields[0], 10, u16::MAX as int) == Some(queue as int) {
        Some(
            QueueDepth {
                queue_num: queue,
                queued: column(fields, 2),
                queue_dropped: column(fields, 5),
                user_dropped: column(fields, 6),
                id_sequence: column(fields, 7),
            },
        )
    } else {
        None
    }
}

/// What the first line for a queue says, from a given line on.
pub open spec fn first_depth(lines: Seq<Seq<char>>, queue: u16, from: int) -> Option<QueueDepth>
    decreases lines.len() - from,
{
    if from >= lines.len() {
        None
    } else if line_depth(lines[from], queue) is Some {
        line_depth(lines[from], queue)
    } else {
        first_depth(lines, queue, from + 1)
    }
}

fn read_column(fields: &Vec<&[char]>, at: usize) -> (value: u32)
    ensures
        value == column(views(fields@), at as int),
{
    if at < fields.len() {
        assert(views(fields@)[at as int] == fields@[at as int]@);
        match parse_number(fields[at], 10, u32::MAX as u64) {
            Some(value) => value as u32,
            None => 0,
        }
    } else {
        0
    }
}

/// Parse `/proc/net/netfilter/nfnetlink_queue`, returning the line for `queue`.
///
/// Any input yields a value or nothing. A line needs the columns that are read and
/// may have more, so a kernel that adds a column does not take the reading away. A
/// queue that nobody bound is absent rather than zero.
pub fn parse(text: &str, queue: u16) -> (depth: Option<QueueDepth>)
    ensures
        depth == first_depth(lines_of(text@), queue, 0),
{
    let chars = chars_of(text);
    let lines = split_lines(chars.as_slice());
    let ghost all = views(lines@);
    let ghost goal = first_depth(lines_of(text@), queue, 0);
    let mut i: usize = 0;
    while i < lines.len()
        invariant
            all == views(lines@),
            i <= all.len(),
            goal == first_depth(all, queue, i as int),
            goal == first_depth(lines_of(text@), queue, 0),
        decreases all.len() - i,
    {
        assert(all[i as int] == lines@[i as int]@);
        let fields = split_words(lines[i]);
        if fields.len() >= MIN_COLUMNS {
            assert(views(fields@)[0] == fields@[0]@);
            if let Some(queue_num) = parse_number(fields[0], 10, u16::MAX as u64) {
                if queue_num == queue as u64 {
                    return Some(
                        QueueDepth {
                            queue_num: queue,
                            queued: read_column(&fields, 2),
                            queue_dropped: read_column(&fields, 5),
                            user_dropped: read_column(&fields, 6),
                            id_sequence: read_column(&fields, 7),
                        },
                    );
                }
            }
        }
        i = i + 1;
    }
    None
}

/// Whether the buffer is large enough to judge every packet under load.
pub fn buffer_is_adequate(bytes: u64) -> (adequate: bool)
    ensures
        adequate == (bytes >= MIN_NETLINK_RECV_BUFFER),
{
    bytes >= MIN_NETLINK_RECV_BUFFER
}

/// Parse what the kernel says of its default receive buffer: a number, with space
/// around it.
pub fn parse_recv_buffer(text: &str) -> (bytes: Option<u64>)
    ensures
        match bytes {
            Some(bytes) => number(crate::text::trimmed(text@), 10, u64::MAX as int) == Some(
                bytes as int,
            ),
            None => number(crate::text::trimmed(text@), 10, u64::MAX as int) is None,
        },
{
    let chars = chars_of(text);
    parse_number(crate::text::trim(chars.as_slice()), 10, u64::MAX)
}

/// A line of the queue table is read by its columns: the queue's number first, then, as
/// third, sixth, seventh and eighth, what waits, what the kernel dropped, what could not
/// be handed to user space, and the sequence number.
pub proof fn law_a_queue_line_is_read_by_its_columns(
    line: Seq<char>,
    queue: u16,
    queued: u32,
    dropped: u32,
    undelivered: u32,
    sequence: u32,
)
    requires
        words(line).len() >= 7,
        words(line)[0] == decimal(queue as nat),
        words(line)[2] == decimal(queued as nat),
        words(line)[5] == decimal(dropped as nat),
        words(line)[6] == decimal(undelivered as nat),
    ensures
        ({
            &&& line_depth(line, queue) matches Some(depth)
            &&& depth.queue_num == queue
            &&& depth.queued == queued
            &&& depth.queue_dropped == dropped
            &&& depth.user_dropped == undelivered
            &&& words(line).len() == 7 ==> depth.id_sequence == 0
            &&& words(line).len() >= 8 && words(line)[7] == decimal(sequence as nat)
                ==> depth.id_sequence == sequence
        }),
        forall|other: u16| other != queue ==> #[trigger] line_depth(line, other) is None,
{
    law_a_number_reads_back(queue as nat, 10, u16::MAX as int);
    law_a_number_reads_back(queued as nat, 10, u32::MAX as int);
    law_a_number_reads_back(dropped as nat, 10, u32::MAX as int);
    law_a_number_reads_back(undelivered as nat, 10, u32::MAX as int);
    law_a_number_reads_back(sequence as nat, 10, u32::MAX as int);
}

/// A line with fewer than seven columns says nothing of any queue.
pub proof fn law_a_short_queue_line_is_none(line: Seq<char>, queue: u16)
    requires
        words(line).len() < 7,
    ensures
        line_depth(line, queue) is None,
{
}

/// The first line of a queue is the one that is read, and a queue without a line has no
/// depth.
pub proof fn law_the_first_line_of_a_queue_is_read(lines: Seq<Seq<char>>, queue: u16, from: int)
    requires
        0 <= from,
    ensures
        first_depth(lines, queue, from) is None <==> forall|i: int|
            from <= i < lines.len() ==> #[trigger] line_depth(lines[i], queue) is None,
        forall|k: int|
            from <= k < lines.len() && #[trigger] line_depth(lines[k], queue) is Some && (forall|
                i: int,
            | from <= i < k ==> #[trigger] line_depth(lines[i], queue) is None) ==> first_depth(
                lines,
                queue,
                from,
            ) == line_depth(lines[k], queue),
    decreases lines.len() - from,
{
    if from < lines.len() {
        law_the_first_line_of_a_queue_is_read(lines, queue, from + 1);
    }
}

} // verus!
