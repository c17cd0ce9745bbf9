//! Progress model of one long transfer: rate, elapsed time, estimated
//! time remaining, and a textual progress display.
//!
//! Time reaches the tracker only as caller-supplied millisecond readings
//! of a monotonic clock; ratios are held in tenths (of a percent, of a
//! KB/s), so every quantity is an integer and every computation is exact.

use vstd::prelude::*;

verus! {

/// Largest declared content length the tracker accepts: the machine's
/// address range shrunk just enough that every internal product (bytes
/// times a thousand) stays inside the 64-bit integer range — about nine
/// petabytes on a 64-bit machine.
pub const MAX_TRACKED_BYTES: usize = usize::MAX / 2048;

/// The decimal digit `d` as a character.
pub open spec fn digit_char(d: int) -> char {
    if d == 0 {
        '0'
    } else if d == 1 {
        '1'
    } else if d == 2 {
        '2'
    } else if d == 3 {
        '3'
    } else if d == 4 {
        '4'
    } else if d == 5 {
        '5'
    } else if d == 6 {
        '6'
    } else if d == 7 {
        '7'
    } else if d == 8 {
        '8'
    } else {
        '9'
    }
}

/// Decimal rendering of a non-negative integer, without leading zeros.
pub open spec fn dec_str(n: int) -> Seq<char>
    decreases n,
{
    if n < 0 {
        Seq::empty()
    } else if n < 10 {
        seq![digit_char(n)]
    } else {
        dec_str(n / 10).push(digit_char(n % 10))
    }
}

/// A quantity held in tenths, rendered with one fractional digit.
pub open spec fn fixed1(tenths: int) -> Seq<char> {
    dec_str(tenths / 10) + seq!['.', digit_char(tenths % 10)]
}

/// `s` padded on the left with spaces to at least `w` characters.
pub open spec fn pad_left(s: Seq<char>, w: int) -> Seq<char> {
    if s.len() >= w {
        s
    } else {
        Seq::new((w - s.len()) as nat, |i: int| ' ') + s
    }
}

/// The rate display: tenths of KB/s, shown as `kb/s`, or as `mb/s` above
/// one thousand KB/s.
pub open spec fn rate_render(kbs_tenths: int) -> Seq<char> {
    if kbs_tenths > 10000 {
        pad_left(fixed1(kbs_tenths / 1000), 5) + seq![' ', 'm', 'b', '/', 's']
    } else {
        pad_left(fixed1(kbs_tenths), 5) + seq![' ', 'k', 'b', '/', 's']
    }
}

/// The elapsed-time display: bare seconds under a minute, else minutes
/// and seconds.
pub open spec fn elapsed_render(secs: int) -> Seq<char> {
    if secs < 60 {
        dec_str(secs) + seq!['s']
    } else {
        dec_str(secs / 60) + seq!['m', 'i', 'n'] + dec_str(secs % 60) + seq!['s']
    }
}

/// The estimated-remaining display: always minutes and seconds.
pub open spec fn estimate_render(est_secs: int) -> Seq<char> {
    dec_str(est_secs / 60) + seq!['m', 'i', 'n'] + dec_str(est_secs % 60) + seq!['s']
}

/// Number of filled cells in the progress bar, out of its fixed width of
/// fifteen.
pub open spec fn bar_index(percent_tenths: int) -> int {
    percent_tenths * 15 / 1000
}

/// The progress bar: filled cells, then empty cells, fifteen in all.
pub open spec fn bar_render(percent_tenths: int) -> Seq<char> {
    Seq::new(
        15,
        |i: int|
            if i < bar_index(percent_tenths) {
                '⣿'
            } else {
                '·'
            },
    )
}

/// The leading section of the display: padded percentage, bar, and the
/// filled-cell count.
pub open spec fn progress_render(percent_tenths: int) -> Seq<char> {
    pad_left(fixed1(percent_tenths), 5) + seq!['%', ' ', ' ', '['] + bar_render(percent_tenths)
        + seq![']', ' '] + dec_str(bar_index(percent_tenths))
}

/// One full line of the progress display.
pub open spec fn line_render(
    percent_tenths: int,
    kbs_tenths: int,
    elapsed_secs: int,
    est_secs: int,
) -> Seq<char> {
    progress_render(percent_tenths) + seq![' ', '|', ' '] + rate_render(kbs_tenths)
        + seq![' ', '|', ' '] + elapsed_render(elapsed_secs)
        + seq![' ', '|', ' ', 'e', 's', 't', 'i', 'm', 'a', 't', 'e', 'd', ' '] + estimate_render(
        est_secs,
    )
}

/// The decimal digit `d` as a one-character string.
fn digit_str(d: u64) -> (r: &'static str)
    requires
        d < 10,
    ensures
        r@ == seq![digit_char(d as int)],
{
    if d == 0 {
        proof {
            reveal_strlit("0");
        }
        "0"
    } else if d == 1 {
        proof {
            reveal_strlit("1");
        }
        "1"
    } else if d == 2 {
        proof {
            reveal_strlit("2");
        }
        "2"
    } else if d == 3 {
        proof {
            reveal_strlit("3");
        }
        "3"
    } else if d == 4 {
        proof {
            reveal_strlit("4");
        }
        "4"
    } else if d == 5 {
        proof {
            reveal_strlit("5");
        }
        "5"
    } else if d == 6 {
        proof {
            reveal_strlit("6");
        }
        "6"
    } else if d == 7 {
        proof {
            reveal_strlit("7");
        }
        "7"
    } else if d == 8 {
        proof {
            reveal_strlit("8");
        }
        "8"
    } else {
        proof {
            reveal_strlit("9");
        }
        "9"
    }
}

/// Decimal rendering of `n`.
fn dec_string(n: u64) -> (r: String)
    ensures
        r@ == dec_str(n as int),
    decreases n,
{
    if n < 10 {
        digit_str(n).to_owned()
    } else {
        let mut r = dec_string(n / 10);
        r.append(digit_str(n % 10));
        proof {
            assert(r@ =~= dec_str(n as int));
        }
        r
    }
}

/// `tenths`, rendered with one fractional digit.
fn fixed1_string(tenths: u64) -> (r: String)
    ensures
        r@ == fixed1(tenths as int),
{
    let mut r = dec_string(tenths / 10);
    proof {
        reveal_strlit(".");
    }
    r.append(".");
    r.append(digit_str(tenths % 10));
    proof {
        assert(r@ =~= fixed1(tenths as int));
    }
    r
}

/// `s` padded on the left with spaces to at least `width` characters.
fn pad_left_string(s: String, width: usize) -> (r: String)
    ensures
        r@ == pad_left(s@, width as int),
{
    let n: usize = s.as_str().unicode_len();
    if n >= width {
        s
    } else {
        let mut out = String::new();
        let mut c: usize = n;
        while c < width
            invariant
                n <= c <= width,
                out@ =~= Seq::new((c - n) as nat, |i: int| ' '),
            decreases width - c,
        {
            proof {
                reveal_strlit(" ");
            }
            out.append(" ");
            proof {
                assert(out@ =~= Seq::new((c + 1 - n) as nat, |i: int| ' '));
            }
            c = c + 1;
        }
        out.append(s.as_str());
        proof {
            assert(out@ =~= pad_left(s@, width as int));
        }
        out
    }
}

/// Transfer progress for one download whose total size is declared up
/// front.  All clock readings come from the caller, in milliseconds of a
/// monotonic clock.
pub struct ProgressTracker {
    /// Declared total size of the transfer, in bytes.
    pub content_length: usize,
    /// Bytes seen so far.
    pub total_read: usize,
    /// Bytes seen since the display was last rendered.
    pub incremental_read: usize,
    /// Completed share of the transfer, in tenths of a percent.
    pub percent_tenths: u64,
    /// Clock reading at which the transfer began.
    pub start_ms: u64,
    /// Clock reading of the last render.
    pub timer_ms: u64,
}

impl ProgressTracker {
    /// The tracker's internal consistency.
    pub open spec fn wf(self) -> bool {
        &&& 0 < self.content_length <= MAX_TRACKED_BYTES
        &&& self.total_read <= self.content_length
        &&& self.incremental_read <= self.total_read
        &&& self.percent_tenths == self.total_read as int * 1000 / self.content_length as int
        &&& self.start_ms <= self.timer_ms
    }

    /// A fresh tracker for a transfer of `content_length` bytes, begun at
    /// clock reading `now_ms`.
    pub fn new(content_length: usize, now_ms: u64) -> (t: ProgressTracker)
        requires
            0 < content_length <= MAX_TRACKED_BYTES,
        ensures
            t.wf(),
            t.content_length == content_length,
            t.total_read == 0,
            t.incremental_read == 0,
            t.percent_tenths == 0,
            t.start_ms == now_ms,
            t.timer_ms == now_ms,
    {
        ProgressTracker {
            content_length,
            total_read: 0,
            incremental_read: 0,
            percent_tenths: 0,
            start_ms: now_ms,
            timer_ms: now_ms,
        }
    }

    /// The progress-bar section of the display.
    fn progress_bar(&self) -> (r: String)
        requires
            self.percent_tenths <= 1000,
        ensures
            r@ == progress_render(self.percent_tenths as int),
    {
        let idx: u64 = self.percent_tenths * 15 / 1000;
        assert(idx as int == bar_index(self.percent_tenths as int));
        let mut bar = String::new();
        let mut i: u64 = 0;
        while i < 15
            invariant
                0 <= i <= 15,
                idx as int == bar_index(self.percent_tenths as int),
                idx <= 15,
                bar@ =~= bar_render(self.percent_tenths as int).take(i as int),
            decreases 15 - i,
        {
            if i < idx {
                proof {
                    reveal_strlit("⣿");
                }
                bar.append("⣿");
            } else {
                proof {
                    reveal_strlit("·");
                }
                bar.append("·");
            }
            proof {
                assert(bar@ =~= bar_render(self.percent_tenths as int).take(i + 1));
            }
            i = i + 1;
        }
        proof {
            assert(bar_render(self.percent_tenths as int).take(15) =~= bar_render(
                self.percent_tenths as int,
            ));
        }
        let mut out = pad_left_string(fixed1_string(self.percent_tenths), 5);
        proof {
            reveal_strlit("%  [");
            reveal_strlit("] ");
        }
        out.append("%  [");
        out.append(bar.as_str());
        out.append("] ");
        let tail = dec_string(idx);
        out.append(tail.as_str());
        proof {
            assert(out@ =~= progress_render(self.percent_tenths as int));
        }
        out
    }

    /// The rate section of the display.
    fn kbs_to_human_readable(kbs_tenths: u64) -> (r: String)
        requires
            kbs_tenths <= 0x1000_0000_0000_0000,
        ensures
            r@ == rate_render(kbs_tenths as int),
    {
        if kbs_tenths > 10000 {
            let mut out = pad_left_string(fixed1_string(kbs_tenths / 1000), 5);
            proof {
                reveal_strlit(" mb/s");
            }
            out.append(" mb/s");
            proof {
                assert(out@ =~= rate_render(kbs_tenths as int));
            }
            out
        } else {
            let mut out = pad_left_string(fixed1_string(kbs_tenths), 5);
            proof {
                reveal_strlit(" kb/s");
            }
            out.append(" kb/s");
            proof {
                assert(out@ =~= rate_render(kbs_tenths as int));
            }
            out
        }
    }

    /// The elapsed-time section of the display.
    fn elapsed_to_human_readable(secs: u64) -> (r: String)
        ensures
            r@ == elapsed_render(secs as int),
    {
        if secs < 60 {
            let mut out = dec_string(secs);
            proof {
                reveal_strlit("s");
            }
            out.append("s");
            proof {
                assert(out@ =~= elapsed_render(secs as int));
            }
            out
        } else {
            let mut out = dec_string(secs / 60);
            proof {
                reveal_strlit("min");
                reveal_strlit("s");
            }
            out.append("min");
            let rest = dec_string(secs % 60);
            out.append(rest.as_str());
            out.append("s");
            proof {
                assert(out@ =~= elapsed_render(secs as int));
            }
            out
        }
    }

    /// The estimated-remaining section: remaining bytes over the average
    /// rate so far.
    fn estimated(&self, now_ms: u64) -> (r: String)
        requires
            self.wf(),
            now_ms >= self.start_ms,
            (now_ms - self.start_ms) / 1000 >= 1,
            self.total_read >= (now_ms - self.start_ms) / 1000,
        ensures
            ({
                let secs = (now_ms - self.start_ms) as int / 1000;
                let rate = self.total_read as int / secs;
                r@ == estimate_render((self.content_length - self.total_read) as int / rate)
            }),
    {
        let secs: u64 = (now_ms - self.start_ms) / 1000;
        let rate: u64 = (self.total_read as u64) / secs;
        assert(rate >= 1) by (nonlinear_arith)
            requires
                secs >= 1,
                self.total_read >= secs,
                rate == self.total_read as u64 as int / secs as int,
        ;
        let remaining: u64 = (self.content_length - self.total_read) as u64;
        let est: u64 = remaining / rate;
        let mut out = dec_string(est / 60);
        proof {
            reveal_strlit("min");
            reveal_strlit("s");
        }
        out.append("min");
        let rest = dec_string(est % 60);
        out.append(rest.as_str());
        out.append("s");
        proof {
            assert(out@ =~= estimate_render(est as int));
        }
        out
    }

    /// One full line of the display, for the given incremental rate.
    fn display(&self, kbs_tenths: u64, now_ms: u64) -> (r: String)
        requires
            self.wf(),
            self.percent_tenths <= 1000,
            kbs_tenths <= 0x1000_0000_0000_0000,
            now_ms >= self.start_ms,
            (now_ms - self.start_ms) / 1000 >= 1,
            self.total_read >= (now_ms - self.start_ms) / 1000,
        ensures
            ({
                let secs = (now_ms - self.start_ms) as int / 1000;
                let rate = self.total_read as int / secs;
                r@ == line_render(
                    self.percent_tenths as int,
                    kbs_tenths as int,
                    secs,
                    (self.content_length - self.total_read) as int / rate,
                )
            }),
    {
        let mut out = self.progress_bar();
        proof {
            reveal_strlit(" | ");
            reveal_strlit(" | estimated ");
        }
        out.append(" | ");
        let rate_part = Self::kbs_to_human_readable(kbs_tenths);
        out.append(rate_part.as_str());
        out.append(" | ");
        let secs: u64 = (now_ms - self.start_ms) / 1000;
        let elapsed_part = Self::elapsed_to_human_readable(secs);
        out.append(elapsed_part.as_str());
        out.append(" | estimated ");
        let est_part = self.estimated(now_ms);
        out.append(est_part.as_str());
        proof {
            assert(out@ =~= line_render(
                self.percent_tenths as int,
                kbs_tenths as int,
                (now_ms - self.start_ms) as int / 1000,
                (self.content_length - self.total_read) as int / (self.total_read as int / ((now_ms
                    - self.start_ms) as int / 1000)),
            ));
        }
        out
    }

    /// Record `read` more bytes at clock reading `now_ms`.
    ///
    /// The completed share is recomputed exactly.  When more than one
    /// second has passed since the last render, the display line for the
    /// incremental window is returned and the window is reset; otherwise
    /// the bytes only accumulate into the window.
    pub fn update(&mut self, read: usize, now_ms: u64) -> (r: Option<String>)
        requires
            old(self).wf(),
            old(self).total_read + read <= old(self).content_length,
            now_ms >= old(self).timer_ms,
            now_ms - old(self).timer_ms > 1000 ==> old(self).total_read + read >= (now_ms - old(
                self,
            ).start_ms) / 1000,
        ensures
            final(self).wf(),
            final(self).content_length == old(self).content_length,
            final(self).start_ms == old(self).start_ms,
            final(self).total_read == old(self).total_read + read,
            final(self).percent_tenths == (old(self).total_read + read) * 1000 / old(
                self,
            ).content_length as int,
            now_ms - old(self).timer_ms > 1000 ==> {
                &&& final(self).timer_ms == now_ms
                &&& final(self).incremental_read == 0
                &&& ({
                    let secs = (now_ms - old(self).start_ms) as int / 1000;
                    let rate = (old(self).total_read + read) as int / secs;
                    let kbs_tenths = (old(self).incremental_read + read) * 10 / (now_ms - old(
                        self,
                    ).timer_ms) as int;
                    r matches Some(line) && line@ == line_render(
                        final(self).percent_tenths as int,
                        kbs_tenths,
                        secs,
                        (old(self).content_length - (old(self).total_read + read)) as int / rate,
                    )
                })
            },
            now_ms - old(self).timer_ms <= 1000 ==> {
                &&& final(self).timer_ms == old(self).timer_ms
                &&& final(self).incremental_read == old(self).incremental_read + read
                &&& r is None
            },
    {
        self.total_read = self.total_read + read;
        let total64: u64 = self.total_read as u64;
        let len64: u64 = self.content_length as u64;
        self.percent_tenths = total64 * 1000 / len64;
        self.incremental_read = self.incremental_read + read;

        let incremental_ms: u64 = now_ms - self.timer_ms;
        if incremental_ms > 1000 {
            assert(self.percent_tenths <= 1000) by (nonlinear_arith)
                requires
                    self.percent_tenths == self.total_read as int * 1000 / self.content_length as int,
                    0 < self.total_read as int <= self.content_length as int,
            ;
            let kbs_tenths: u64 = (self.incremental_read as u64) * 10 / incremental_ms;
            assert(kbs_tenths <= 0x1000_0000_0000_0000) by (nonlinear_arith)
                requires
                    kbs_tenths == self.incremental_read as int * 10 / incremental_ms as int,
                    0 <= self.incremental_read as int <= MAX_TRACKED_BYTES as int,
                    incremental_ms >= 1,
            ;
            let line = self.display(kbs_tenths, now_ms);
            self.incremental_read = 0;
            self.timer_ms = now_ms;
            Some(line)
        } else {
            None
        }
    }

    /// Force a final render of the most recent incremental window, for
    /// use when a transfer ends between cadence ticks.  At least one full
    /// second must have elapsed, the window must be non-empty in time,
    /// and the average rate must be at least one byte per second.
    pub fn flush(&self, now_ms: u64) -> (r: String)
        requires
            self.wf(),
            self.total_read > 0,
            now_ms > self.timer_ms,
            self.total_read >= (now_ms - self.start_ms) / 1000,
            (now_ms - self.start_ms) / 1000 >= 1,
        ensures
            ({
                let secs = (now_ms - self.start_ms) as int / 1000;
                let rate = self.total_read as int / secs;
                let kbs_tenths = self.incremental_read * 10 / (now_ms - self.timer_ms) as int;
                r@ == line_render(
                    self.percent_tenths as int,
                    kbs_tenths,
                    secs,
                    (self.content_length - self.total_read) as int / rate,
                )
            }),
    {
        assert(self.percent_tenths <= 1000) by (nonlinear_arith)
            requires
                self.percent_tenths == self.total_read as int * 1000 / self.content_length as int,
                0 < self.total_read as int <= self.content_length as int,
        ;
        let window_ms: u64 = now_ms - self.timer_ms;
        let kbs_tenths: u64 = (self.incremental_read as u64) * 10 / window_ms;
        assert(kbs_tenths <= 0x1000_0000_0000_0000) by (nonlinear_arith)
            requires
                kbs_tenths == self.incremental_read as int * 10 / window_ms as int,
                0 <= self.incremental_read as int <= MAX_TRACKED_BYTES as int,
                window_ms >= 1,
        ;
        self.display(kbs_tenths, now_ms)
    }
}

} // verus!
