//! Logging to the serial port and to the screen.
pub mod display;
pub mod serial;

use crate::log::display::{glyphs_exist, joined, parts_written, recolored, Color, FrameBufferWriter};
use vstd::prelude::*;
use vstd::string::StringExecFns;

verus! {

/// White.
pub open spec fn white() -> Color {
    Color(255, 255, 255)
}

/// Black.
pub open spec fn black() -> Color {
    Color(0, 0, 0)
}

/// Green.
pub open spec fn green() -> Color {
    Color(0, 255, 0)
}

/// Red.
pub open spec fn red() -> Color {
    Color(255, 0, 0)
}

/// Sends log lines to the serial port and writes them on the screen. The
/// serial side is the text that the methods return, for the caller to send.
pub struct Logger {
    log_to_serial: bool,
    log_to_screen: bool,
    frame_buffer_writer: Option<FrameBufferWriter>,
}

impl Logger {
    /// Whether log lines go to the serial port.
    pub closed spec fn to_serial(&self) -> bool {
        self.log_to_serial
    }

    /// Whether log lines go to the screen.
    pub closed spec fn to_screen(&self) -> bool {
        self.log_to_screen
    }

    /// The writer for the screen, if there is one.
    pub closed spec fn writer(&self) -> Option<FrameBufferWriter> {
        self.frame_buffer_writer
    }

    /// The colours the screen's writer has now (black on black when there is
    /// no writer).
    pub open spec fn current_colors(&self) -> (Color, Color) {
        match self.writer() {
            Some(w) => (w.fg_color, w.bg_color),
            None => (black(), black()),
        }
    }

    /// Whether the text `cs` can be written on the screen, when it goes there:
    /// the writer is sound and has a glyph for every character it will draw.
    pub open spec fn screen_ready(&self, cs: Seq<char>) -> bool {
        self.to_screen() && self.writer() is Some ==> {
            let w = self.writer()->0;
            &&& w.wf()
            &&& glyphs_exist(w.screen(), w.x as int, w.y as int, cs)
        }
    }

    /// What writing `parts` in `colors` does to the screen: when log lines go
    /// to a screen, its writer ends as `parts_written` says; otherwise nothing
    /// changes.
    pub open spec fn screen_after(
        &self,
        next: Logger,
        parts: Seq<Seq<char>>,
        colors: Seq<(Color, Color)>,
    ) -> bool {
        &&& next.to_serial() == self.to_serial()
        &&& next.to_screen() == self.to_screen()
        &&& if self.to_screen() && self.writer() is Some {
            let w = self.writer()->0;
            let (st, fg, bg) = parts_written(w, parts, colors);
            &&& next.writer() is Some
            &&& next.writer()->0.state() == st
            &&& next.writer()->0.screen() == recolored(w.screen(), fg, bg)
            &&& next.writer()->0.wf()
        } else {
            next.writer() == self.writer()
        }
    }

    /// A logger.
    pub fn new(
        log_to_serial: bool,
        log_to_screen: bool,
        frame_buffer_writer: Option<FrameBufferWriter>,
    ) -> (l: Self)
        ensures
            l.to_serial() == log_to_serial,
            l.to_screen() == log_to_screen,
            l.writer() == frame_buffer_writer,
    {
        Self { log_to_serial, log_to_screen, frame_buffer_writer }
    }

    /// Whether `text` can be written on the screen as it is; see `screen_ready`.
    pub fn can_write(&self, text: &str) -> (b: bool)
        ensures
            b == self.screen_ready(text@),
    {
        if !self.log_to_screen {
            return true;
        }
        match &self.frame_buffer_writer {
            None => true,
            Some(w) => w.is_sound() && w.can_write(text),
        }
    }

    /// Writes `parts` in `colors` on the screen when log lines go there.
    fn screen_write(&mut self, parts: &[&str], colors: &[(Color, Color)])
        requires
            parts@.len() == colors@.len(),
            old(self).screen_ready(joined(parts@.map_values(|p: &str| p@))),
        ensures
            old(self).screen_after(*final(self), parts@.map_values(|p: &str| p@), colors@),
    {
        if self.log_to_screen {
            match self.frame_buffer_writer.take() {
                Some(mut w) => {
                    w.write_parts(parts, colors);
                    self.frame_buffer_writer = Some(w);
                },
                None => {},
            }
        }
    }

    /// Logs `text` as a line of its own, prefixed with `LOG: `, in white on
    /// black on the screen; returns the line for the serial port when log
    /// lines go there.
    pub fn log_text(&mut self, text: &str) -> (serial: Option<String>)
        requires
            old(self).screen_ready("LOG: "@ + text@ + "\n"@),
        ensures
            old(self).to_serial() ==> serial is Some && serial->0@ == "LOG: "@ + text@ + "\n"@,
            !old(self).to_serial() ==> serial is None,
            old(self).screen_after(
                *final(self),
                seq!["LOG: "@, text@, "\n"@],
                seq![(white(), black()), (white(), black()), (white(), black())],
            ),
    {
        let serial = if self.log_to_serial {
            let mut line = String::from_str("LOG: ");
            line.append(text);
            line.append("\n");
            Some(line)
        } else {
            None
        };
        let parts: Vec<&str> = vec!["LOG: ", text, "\n"];
        let colors: Vec<(Color, Color)> = vec![
            (Color(255, 255, 255), Color(0, 0, 0)),
            (Color(255, 255, 255), Color(0, 0, 0)),
            (Color(255, 255, 255), Color(0, 0, 0)),
        ];
        proof {
            let ps = parts@.map_values(|p: &str| p@);
            assert(ps =~= seq!["LOG: "@, text@, "\n"@]);
            reveal_with_fuel(joined, 4);
            assert(joined(ps) =~= "LOG: "@ + text@ + "\n"@);
            assert(colors@ =~= seq![(white(), black()), (white(), black()), (white(), black())]);
        }
        self.screen_write(parts.as_slice(), colors.as_slice());
        serial
    }

    /// Logs that `text` succeeded: ` ... [ OK ]` after it, the `OK` in green on
    /// black and the rest of the line in the writer's colours; returns the line
    /// for the serial port, with `OK` coloured green by escape sequences, when
    /// log lines go there.
    pub fn log_ok(&mut self, text: &str) -> (serial: Option<String>)
        requires
            old(self).screen_ready(text@ + " ... [ "@ + "OK"@ + " ]\n"@),
        ensures
            old(self).to_serial() ==> serial is Some && serial->0@ == text@
                + " ... [ \x1b[32mOK\x1b[0m ]\n"@,
            !old(self).to_serial() ==> serial is None,
            old(self).screen_after(
                *final(self),
                seq![text@, " ... [ "@, "OK"@, " ]\n"@],
                seq![
                    old(self).current_colors(),
                    old(self).current_colors(),
                    (green(), black()),
                    (white(), black()),
                ],
            ),
    {
        let serial = if self.log_to_serial {
            let mut line = String::from_str(text);
            line.append(" ... [ \x1b[32mOK\x1b[0m ]\n");
            Some(line)
        } else {
            None
        };
        let current = self.colors_now();
        let parts: Vec<&str> = vec![text, " ... [ ", "OK", " ]\n"];
        let colors: Vec<(Color, Color)> = vec![
            current,
            current,
            (Color(0, 255, 0), Color(0, 0, 0)),
            (Color(255, 255, 255), Color(0, 0, 0)),
        ];
        proof {
            let ps = parts@.map_values(|p: &str| p@);
            assert(ps =~= seq![text@, " ... [ "@, "OK"@, " ]\n"@]);
            reveal_with_fuel(joined, 5);
            assert(joined(ps) =~= text@ + " ... [ "@ + "OK"@ + " ]\n"@);
        }
        self.screen_write(parts.as_slice(), colors.as_slice());
        serial
    }

    /// Logs that `text` failed: ` ... [ERR ]` after it, the `ERR` in red on
    /// black and the rest of the line in the writer's colours; returns the line
    /// for the serial port, with `ERR` coloured red by escape sequences, when
    /// log lines go there.
    pub fn log_err(&mut self, text: &str) -> (serial: Option<String>)
        requires
            old(self).screen_ready(text@ + " ... ["@ + "ERR"@ + " ]\n"@),
        ensures
            old(self).to_serial() ==> serial is Some && serial->0@ == text@
                + " ... [\x1b[31mERR\x1b[0m ]\n"@,
            !old(self).to_serial() ==> serial is None,
            old(self).screen_after(
                *final(self),
                seq![text@, " ... ["@, "ERR"@, " ]\n"@],
                seq![
                    old(self).current_colors(),
                    old(self).current_colors(),
                    (red(), black()),
                    (white(), black()),
                ],
            ),
    {
        let serial = if self.log_to_serial {
            let mut line = String::from_str(text);
            line.append(" ... [\x1b[31mERR\x1b[0m ]\n");
            Some(line)
        } else {
            None
        };
        let current = self.colors_now();
        let parts: Vec<&str> = vec![text, " ... [", "ERR", " ]\n"];
        let colors: Vec<(Color, Color)> = vec![
            current,
            current,
            (Color(255, 0, 0), Color(0, 0, 0)),
            (Color(255, 255, 255), Color(0, 0, 0)),
        ];
        proof {
            let ps = parts@.map_values(|p: &str| p@);
            assert(ps =~= seq![text@, " ... ["@, "ERR"@, " ]\n"@]);
            reveal_with_fuel(joined, 5);
            assert(joined(ps) =~= text@ + " ... ["@ + "ERR"@ + " ]\n"@);
        }
        self.screen_write(parts.as_slice(), colors.as_slice());
        serial
    }

    /// Writes `s` as it is: on the screen in the writer's colours, and returned
    /// for the serial port when log lines go there.
    pub fn write_str(&mut self, s: &str) -> (serial: Option<String>)
        requires
            old(self).screen_ready(s@),
        ensures
            old(self).to_serial() ==> serial is Some && serial->0@ == s@,
            !old(self).to_serial() ==> serial is None,
            old(self).screen_after(*final(self), seq![s@], seq![old(self).current_colors()]),
    {
        let serial = if self.log_to_serial {
            Some(String::from_str(s))
        } else {
            None
        };
        let current = self.colors_now();
        let parts: Vec<&str> = vec![s];
        let colors: Vec<(Color, Color)> = vec![current];
        proof {
            let ps = parts@.map_values(|p: &str| p@);
            assert(ps =~= seq![s@]);
            reveal_with_fuel(joined, 2);
            assert(joined(ps) =~= s@);
            assert(colors@ =~= seq![current]);
        }
        self.screen_write(parts.as_slice(), colors.as_slice());
        serial
    }

    /// The colours the screen's writer has now.
    fn colors_now(&self) -> (c: (Color, Color))
        ensures
            c == self.current_colors(),
    {
        match &self.frame_buffer_writer {
            Some(w) => (w.fg_color, w.bg_color),
            None => (Color(0, 0, 0), Color(0, 0, 0)),
        }
    }
}

} // verus!
