use vstd::prelude::*;
use crossterm::ExecutableCommand;

verus! {

/// A key press reported by the terminal.
#[verifier::external_type_specification]
#[verifier::external_body]
pub struct ExKeyEvent(crossterm::event::KeyEvent);

/// A plain terminal canvas: a width and a height in character cells, with
/// primitive operations that position the cursor and print text.
///
/// The primitives write to the process's terminal, so nothing can be promised
/// of their effect; the drawing routines built on them are verified not to
/// panic and to stay within the cell arithmetic of `u16`.
pub struct Tui {
    pub width: u16,
    pub height: u16,
}

/// Relies on crossterm's `terminal::size`: the terminal's dimensions in
/// character cells, as the OS reports them.
#[verifier::external_body]
fn term_size() -> (r: Result<(u16, u16), ()>)
{
    crossterm::terminal::size().map_err(|_| ())
}

impl Tui {
    /// A canvas sized to the current terminal.
    pub fn new() -> (r: Result<Tui, ()>) {
        match term_size() {
            Ok((width, height)) => Ok(Tui { width, height }),
            Err(_) => Err(()),
        }
    }

    /// A canvas of the given dimensions, for drawing without a terminal
    /// query.
    pub fn new_with_size(width: u16, height: u16) -> (r: Tui)
        ensures
            r.width == width,
            r.height == height,
    {
        Tui { width, height }
    }

    /// Relies on crossterm's `enable_raw_mode`, `EnterAlternateScreen` and
    /// `cursor::Hide`: puts the terminal into the state the viewer draws in.
    #[verifier::external_body]
    pub fn start(&self) -> (r: Result<(), ()>) {
        crossterm::terminal::enable_raw_mode().map_err(|_| ())?;
        std::io::stdout()
            .execute(crossterm::terminal::EnterAlternateScreen)
            .and_then(|out| out.execute(crossterm::cursor::Hide))
            .map(|_| ())
            .map_err(|_| ())
    }

    /// Relies on crossterm's `LeaveAlternateScreen`, `cursor::Show` and
    /// `disable_raw_mode`: restores the terminal.
    #[verifier::external_body]
    pub fn stop(&self) -> (r: Result<(), ()>) {
        std::io::stdout()
            .execute(crossterm::terminal::LeaveAlternateScreen)
            .and_then(|out| out.execute(crossterm::cursor::Show))
            .map(|_| ())
            .map_err(|_| ())?;
        crossterm::terminal::disable_raw_mode().map_err(|_| ())
    }

    /// Relies on crossterm's `terminal::Clear` and `cursor::MoveTo`: empties
    /// the screen and homes the cursor.
    #[verifier::external_body]
    pub fn clear(&self) -> (r: Result<(), ()>) {
        std::io::stdout()
            .execute(crossterm::terminal::Clear(crossterm::terminal::ClearType::All))
            .and_then(|out| out.execute(crossterm::cursor::MoveTo(0, 0)))
            .map(|_| ())
            .map_err(|_| ())
    }

    /// Relies on crossterm's `cursor::MoveTo` and `style::Print`: prints the
    /// text at the given cell.
    #[verifier::external_body]
    pub fn write_at(&self, x: u16, y: u16, text: &str) -> (r: Result<(), ()>) {
        std::io::stdout()
            .execute(crossterm::cursor::MoveTo(x, y))
            .and_then(|out| out.execute(crossterm::style::Print(text)))
            .map(|_| ())
            .map_err(|_| ())
    }

    /// Relies on crossterm's `event::read`: blocks until the terminal
    /// reports an input event, handing it back as a key press where it is
    /// one and as `None` otherwise.
    #[verifier::external_body]
    fn read_event(&self) -> (r: Result<Option<crossterm::event::KeyEvent>, ()>) {
        match crossterm::event::read() {
            Ok(crossterm::event::Event::Key(event)) => Ok(Some(event)),
            Ok(_) => Ok(None),
            Err(_) => Err(()),
        }
    }

    /// Block until the terminal reports a key press, discarding other
    /// events, as a blocking keyboard read.
    pub fn read_key(&self) -> (r: Result<crossterm::event::KeyEvent, ()>) {
        let mut budget: u64 = u64::MAX;
        while budget > 0
            decreases budget,
        {
            match self.read_event() {
                Ok(Some(event)) => {
                    return Ok(event);
                },
                Ok(None) => {},
                Err(_) => {
                    return Err(());
                },
            }
            budget = budget - 1;
        }
        Err(())
    }

    /// Draw a rectangular border whose outer edges are the given box: corner
    /// glyphs at the four corners, horizontal runs along the top and bottom
    /// rows and vertical runs down the sides.
    pub fn draw_box(&self, x: u16, y: u16, width: u16, height: u16) -> (r: Result<(), ()>)
        requires
            width >= 1,
            height >= 1,
            x + width <= u16::MAX + 1,
            y + height <= u16::MAX + 1,
    {
        self.write_at(x, y, "┌")?;
        let mut i: u16 = 1;
        while i < width - 1
            invariant
                1 <= i,
                x + width <= u16::MAX + 1,
                i <= width,
            decreases width - i,
        {
            self.write_at(x + i, y, "─")?;
            i = i + 1;
        }
        self.write_at(x + (width - 1), y, "┐")?;

        let mut j: u16 = 1;
        while j < height - 1
            invariant
                1 <= j,
                width >= 1,
                x + width <= u16::MAX + 1,
                y + height <= u16::MAX + 1,
                j <= height,
            decreases height - j,
        {
            self.write_at(x, y + j, "│")?;
            self.write_at(x + (width - 1), y + j, "│")?;
            j = j + 1;
        }

        self.write_at(x, y + (height - 1), "└")?;
        let mut i: u16 = 1;
        while i < width - 1
            invariant
                1 <= i,
                height >= 1,
                x + width <= u16::MAX + 1,
                y + height <= u16::MAX + 1,
                i <= width,
            decreases width - i,
        {
            self.write_at(x + i, y + (height - 1), "─")?;
            i = i + 1;
        }
        self.write_at(x + (width - 1), y + (height - 1), "┘")?;

        Ok(())
    }

    /// The canvas width in cells.
    pub fn width(&self) -> (r: u16)
        ensures
            r == self.width,
    {
        self.width
    }

    /// The canvas height in cells.
    pub fn height(&self) -> (r: u16)
        ensures
            r == self.height,
    {
        self.height
    }
}

} // verus!
