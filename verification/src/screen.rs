//! The screen: its rows, and the lines of text above and below the canvas.

use ratatui::layout::{Constraint, Direction, Layout, Rect};
use vstd::prelude::*;

use crate::fixed::{one_decimal, one_decimal_text, printable};
use crate::game::{App, Game, GameState};
use crate::surface::Color;
use crate::text::{digits, digits_of, joined};

verus! {

/// Lines of the screen above the canvas.
pub const TITLE_LINES: u16 = 1;

/// Lines of the screen below the canvas.
pub const FOOTER_LINES: u16 = 3;

/// A rectangle of terminal cells.
#[derive(Clone, Copy, PartialEq, Eq, Structural, Debug)]
pub struct Area {
    pub x: u16,
    pub y: u16,
    pub width: u16,
    pub height: u16,
}

/// Splits an area into three rows by `ratatui::layout::Layout`'s `split`, the
/// first and the last of a fixed length and the middle one of a minimal one.
///
/// Each row spans the width of the area and lies within it. Where the lengths
/// fit, the outer rows have theirs and the middle one has what is left. Where
/// they do not, which row gives way is left to a constraint solver that walks
/// hash maps, and nothing is claimed of it.
#[verifier::external_body]
fn split_rows(area: Area, top: u16, middle: u16, bottom: u16) -> (rows: (Area, Area, Area))
    ensures
        rows.0.x == area.x && rows.0.width == area.width,
        rows.1.x == area.x && rows.1.width == area.width,
        rows.2.x == area.x && rows.2.width == area.width,
        area.y <= rows.0.y && rows.0.y + rows.0.height <= area.y + area.height,
        area.y <= rows.1.y && rows.1.y + rows.1.height <= area.y + area.height,
        area.y <= rows.2.y && rows.2.y + rows.2.height <= area.y + area.height,
        area.y + area.height <= u16::MAX && middle <= i16::MAX && top + middle + bottom
            <= area.height ==> {
            &&& rows.0.y == area.y && rows.0.height == top
            &&& rows.1.y == area.y + top && rows.1.height == area.height - top - bottom
            &&& rows.2.y == area.y + area.height - bottom && rows.2.height == bottom
        },
{
    let rows = Layout::default()
        .direction(Direction::Vertical)
        .constraints([Constraint::Length(top), Constraint::Min(middle), Constraint::Length(bottom)])
        .split(Rect { x: area.x, y: area.y, width: area.width, height: area.height });
    let (a, b, c) = (rows[0], rows[1], rows[2]);
    (
        Area { x: a.x, y: a.y, width: a.width, height: a.height },
        Area { x: b.x, y: b.y, width: b.width, height: b.height },
        Area { x: c.x, y: c.y, width: c.width, height: c.height },
    )
}

/// The line above the canvas.
pub open spec fn title_of(state: GameState) -> Seq<char> {
    match state {
        GameState::Reshaping => " P(X|C) → P(X|C')  [Context Change]"@,
        GameState::InHole => " ⛳ Global Minimum Reached — Valid Code Found!"@,
        _ => " E(x) = Σ aᵢ·exp(−‖x−cᵢ‖²/2σᵢ²)   |   Agent Golf"@,
    }
}

pub open spec fn title_color_of(state: GameState) -> Color {
    match state {
        GameState::Reshaping => Color::Yellow,
        GameState::InHole => Color::Green,
        _ => Color::Cyan,
    }
}

/// What the game says of its state.
pub open spec fn message_of(state: GameState) -> Seq<char> {
    match state {
        GameState::Aiming => "Aim and putt"@,
        GameState::Rolling => "Sampling inference in progress..."@,
        GameState::Stuck => "Stuck in local minimum — add context with [r] to reshape"@,
        GameState::Reshaping => "Reshaping energy landscape..."@,
        GameState::InHole => "Global minimum found! Press [Enter] to reset"@,
    }
}

/// The line below the canvas: the keys, and what the game says.
pub open spec fn controls_of(g: Game) -> Seq<char> {
    if g.state == GameState::Aiming {
        "  ←/→ Aim  ↑/↓ Power: "@ + one_decimal_text(g.putt_power)
            + "  [Space] Putt  [r] Reshape  [q] Quit  |  "@ + message_of(g.state)
    } else {
        "  [s] Stop  [r] Reshape  [Enter] Reset  [q] Quit  |  Putt #"@ + digits_of(
            g.putt_count as nat,
        ) + " | "@ + message_of(g.state)
    }
}

/// What stands on the screen round the canvas, and where.
#[derive(Debug)]
pub struct Screen {
    pub title_area: Area,
    pub canvas_area: Area,
    pub footer_area: Area,
    pub title: &'static str,
    pub title_color: Color,
    pub footer: String,
    pub footer_color: Color,
}

impl App {
    pub fn title(&self) -> (s: &'static str)
        ensures
            s@ == title_of(self.state),
    {
        match self.state {
            GameState::Reshaping => " P(X|C) → P(X|C')  [Context Change]",
            GameState::InHole => " ⛳ Global Minimum Reached — Valid Code Found!",
            _ => " E(x) = Σ aᵢ·exp(−‖x−cᵢ‖²/2σᵢ²)   |   Agent Golf",
        }
    }

    pub fn title_color(&self) -> (c: Color)
        ensures
            c == title_color_of(self.state),
    {
        match self.state {
            GameState::Reshaping => Color::Yellow,
            GameState::InHole => Color::Green,
            _ => Color::Cyan,
        }
    }

    pub fn message(&self) -> (s: &'static str)
        ensures
            s@ == message_of(self.state),
    {
        match self.state {
            GameState::Aiming => "Aim and putt",
            GameState::Rolling => "Sampling inference in progress...",
            GameState::Stuck => "Stuck in local minimum — add context with [r] to reshape",
            GameState::Reshaping => "Reshaping energy landscape...",
            GameState::InHole => "Global minimum found! Press [Enter] to reset",
        }
    }

    pub fn controls(&self) -> (s: String)
        requires
            self.state == GameState::Aiming ==> printable(self.putt_power),
        ensures
            s@ == controls_of(self@),
    {
        if self.state == GameState::Aiming {
            let power: String = one_decimal(self.putt_power);
            joined(
                "  ←/→ Aim  ↑/↓ Power: ",
                power.as_str(),
                "  [Space] Putt  [r] Reshape  [q] Quit  |  ",
                self.message(),
            )
        } else {
            let count: String = digits(self.putt_count);
            joined(
                "  [s] Stop  [r] Reshape  [Enter] Reset  [q] Quit  |  Putt #",
                count.as_str(),
                " | ",
                self.message(),
            )
        }
    }

    /// Lays out the screen.
    pub fn render(&self, area: Area) -> (screen: Screen)
        requires
            self.state == GameState::Aiming ==> printable(self.putt_power),
        ensures
            screen.title@ == title_of(self.state),
            screen.title_color == title_color_of(self.state),
            screen.footer@ == controls_of(self@),
            screen.footer_color == Color::DarkGray,
            screen.title_area.x == area.x && screen.title_area.width == area.width,
            screen.canvas_area.x == area.x && screen.canvas_area.width == area.width,
            screen.footer_area.x == area.x && screen.footer_area.width == area.width,
            area.y <= screen.title_area.y && screen.title_area.y + screen.title_area.height
                <= area.y + area.height,
            area.y <= screen.canvas_area.y && screen.canvas_area.y + screen.canvas_area.height
                <= area.y + area.height,
            area.y <= screen.footer_area.y && screen.footer_area.y + screen.footer_area.height
                <= area.y + area.height,
            area.y + area.height <= u16::MAX && TITLE_LINES + FOOTER_LINES <= area.height ==> {
                &&& screen.title_area.y == area.y
                &&& screen.title_area.height == TITLE_LINES
                &&& screen.canvas_area.y == area.y + TITLE_LINES
                &&& screen.canvas_area.height == area.height - TITLE_LINES - FOOTER_LINES
                &&& screen.footer_area.y == area.y + area.height - FOOTER_LINES
                &&& screen.footer_area.height == FOOTER_LINES
            },
    {
        let (title_area, canvas_area, footer_area) = split_rows(
            area,
            TITLE_LINES,
            0,
            FOOTER_LINES,
        );
        Screen {
            title_area,
            canvas_area,
            footer_area,
            title: self.title(),
            title_color: self.title_color(),
            footer: self.controls(),
            footer_color: Color::DarkGray,
        }
    }
}

} // verus!
