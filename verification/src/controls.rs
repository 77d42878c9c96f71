//! Keyboard and mouse bindings of the viewer: what each input asks for,
//! depending on whether the HUD panel is shown.
use vstd::prelude::*;
use crate::display::Backend;
use crate::hud::{HudAction, KeyInput};

verus! {

/// An input event, as far as the bindings tell events apart.
#[derive(Clone, Copy, Debug, PartialEq, Eq, Structural)]
pub enum InputEvent {
    /// A key, with the Control modifier held or not.
    Key { key: KeyInput, ctrl: bool },
    ScrollUp,
    ScrollDown,
    Other,
}

/// What an input asks the viewer to do.
#[derive(Clone, Copy, Debug, PartialEq, Eq, Structural)]
pub enum Command {
    /// Leave the viewer.
    Quit,
    /// Hide the HUD panel.
    CloseHud,
    /// Show or hide the HUD panel.
    ToggleHud,
    /// Orbit by one rotation step in yaw and pitch; each is -1, 0 or 1.
    Orbit { yaw: i8, pitch: i8 },
    /// Zoom in by one step (radius times `1 - zoom_step`).
    ZoomIn,
    /// Zoom out by one step (radius times `1 + zoom_step`).
    ZoomOut,
    /// Pan by one step to the right and forward; each is -1, 0 or 1.
    Pan { right: i8, forward: i8 },
    /// Start or stop the automatic orbit.
    ToggleAutoOrbit,
    /// Hand the key to the HUD panel.
    Hud(KeyInput),
    /// Nothing to do.
    Ignore,
}

/// Keys that navigate or adjust the HUD while it is shown.
pub open spec fn is_hud_key(key: KeyInput) -> bool {
    match key {
        KeyInput::Up | KeyInput::Down | KeyInput::Left | KeyInput::Right | KeyInput::PageUp
        | KeyInput::PageDown => true,
        KeyInput::Char(c) => c == ',' || c == '.' || c == '<' || c == '>',
        _ => false,
    }
}

/// The command for a character key (other than the HUD's `, . < >`).
pub open spec fn char_command(c: char, ctrl: bool) -> Command {
    if c == 'q' || (c == 'c' && ctrl) {
        Command::Quit
    } else if c == 'h' || c == 'H' {
        Command::Orbit { yaw: 0, pitch: 1 }
    } else if c == 'l' || c == 'L' {
        Command::Orbit { yaw: 0, pitch: -1i8 }
    } else if c == 'j' || c == 'J' {
        Command::Orbit { yaw: -1i8, pitch: 0 }
    } else if c == 'k' || c == 'K' {
        Command::Orbit { yaw: 1, pitch: 0 }
    } else if c == '+' || c == '=' {
        Command::ZoomIn
    } else if c == '-' || c == '_' {
        Command::ZoomOut
    } else if c == 'w' || c == 'W' {
        Command::Pan { right: 0, forward: 1 }
    } else if c == 's' || c == 'S' {
        Command::Pan { right: 0, forward: -1i8 }
    } else if c == 'a' || c == 'A' {
        Command::Pan { right: -1i8, forward: 0 }
    } else if c == 'd' || c == 'D' {
        Command::Pan { right: 1, forward: 0 }
    } else if c == 'o' || c == 'O' {
        Command::ToggleAutoOrbit
    } else {
        Command::Ignore
    }
}

/// The bindings: `q` and Ctrl-C quit; Esc closes the HUD, or quits when it
/// is hidden; Tab shows or hides it; `h j k l` orbit, `+ -` zoom,
/// `w a s d` pan and `o` toggles the automatic orbit whatever the HUD
/// shows; the arrows go to the HUD while it is shown and orbit otherwise;
/// PgUp, PgDn and `, . < >` go to the HUD while it is shown and do nothing
/// otherwise; the scroll wheel zooms.
pub open spec fn command_spec(event: InputEvent, hud_visible: bool) -> Command {
    match event {
        InputEvent::Key { key, ctrl } => match key {
            KeyInput::Esc => if hud_visible {
                Command::CloseHud
            } else {
                Command::Quit
            },
            KeyInput::Tab => Command::ToggleHud,
            KeyInput::Char(c) => if c == ',' || c == '.' || c == '<' || c == '>' {
                if hud_visible {
                    Command::Hud(key)
                } else {
                    Command::Ignore
                }
            } else {
                char_command(c, ctrl)
            },
            KeyInput::Up | KeyInput::Down | KeyInput::Left | KeyInput::Right => if hud_visible {
                Command::Hud(key)
            } else {
                match key {
                    KeyInput::Left => Command::Orbit { yaw: -1i8, pitch: 0 },
                    KeyInput::Right => Command::Orbit { yaw: 1, pitch: 0 },
                    KeyInput::Up => Command::Orbit { yaw: 0, pitch: 1 },
                    _ => Command::Orbit { yaw: 0, pitch: -1i8 },
                }
            },
            KeyInput::PageUp | KeyInput::PageDown => if hud_visible {
                Command::Hud(key)
            } else {
                Command::Ignore
            },
            KeyInput::Other => Command::Ignore,
        },
        InputEvent::ScrollUp => Command::ZoomIn,
        InputEvent::ScrollDown => Command::ZoomOut,
        InputEvent::Other => Command::Ignore,
    }
}

fn char_command_exec(c: char, ctrl: bool) -> (cmd: Command)
    ensures
        cmd == char_command(c, ctrl),
{
    if c == 'q' || (c == 'c' && ctrl) {
        Command::Quit
    } else if c == 'h' || c == 'H' {
        Command::Orbit { yaw: 0, pitch: 1 }
    } else if c == 'l' || c == 'L' {
        Command::Orbit { yaw: 0, pitch: -1i8 }
    } else if c == 'j' || c == 'J' {
        Command::Orbit { yaw: -1i8, pitch: 0 }
    } else if c == 'k' || c == 'K' {
        Command::Orbit { yaw: 1, pitch: 0 }
    } else if c == '+' || c == '=' {
        Command::ZoomIn
    } else if c == '-' || c == '_' {
        Command::ZoomOut
    } else if c == 'w' || c == 'W' {
        Command::Pan { right: 0, forward: 1 }
    } else if c == 's' || c == 'S' {
        Command::Pan { right: 0, forward: -1i8 }
    } else if c == 'a' || c == 'A' {
        Command::Pan { right: -1i8, forward: 0 }
    } else if c == 'd' || c == 'D' {
        Command::Pan { right: 1, forward: 0 }
    } else if c == 'o' || c == 'O' {
        Command::ToggleAutoOrbit
    } else {
        Command::Ignore
    }
}

/// What `event` asks for (see [`command_spec`]).
pub fn command_for(event: InputEvent, hud_visible: bool) -> (cmd: Command)
    ensures
        cmd == command_spec(event, hud_visible),
{
    match event {
        InputEvent::Key { key, ctrl } => match key {
            KeyInput::Esc => if hud_visible {
                Command::CloseHud
            } else {
                Command::Quit
            },
            KeyInput::Tab => Command::ToggleHud,
            KeyInput::Char(c) => if c == ',' || c == '.' || c == '<' || c == '>' {
                if hud_visible {
                    Command::Hud(key)
                } else {
                    Command::Ignore
                }
            } else {
                char_command_exec(c, ctrl)
            },
            KeyInput::Up | KeyInput::Down | KeyInput::Left | KeyInput::Right => if hud_visible {
                Command::Hud(key)
            } else {
                match key {
                    KeyInput::Left => Command::Orbit { yaw: -1i8, pitch: 0 },
                    KeyInput::Right => Command::Orbit { yaw: 1, pitch: 0 },
                    KeyInput::Up => Command::Orbit { yaw: 0, pitch: 1 },
                    _ => Command::Orbit { yaw: 0, pitch: -1i8 },
                }
            },
            KeyInput::PageUp | KeyInput::PageDown => if hud_visible {
                Command::Hud(key)
            } else {
                Command::Ignore
            },
            KeyInput::Other => Command::Ignore,
        },
        InputEvent::ScrollUp => Command::ZoomIn,
        InputEvent::ScrollDown => Command::ZoomOut,
        InputEvent::Other => Command::Ignore,
    }
}

/// `q` quits always, whatever the HUD shows and whatever modifier is held;
/// so does Ctrl-C. Esc quits exactly when the HUD is hidden and closes it
/// otherwise.
pub proof fn lemma_quit_always_reachable(hud_visible: bool, ctrl: bool)
    ensures
        command_spec(InputEvent::Key { key: KeyInput::Char('q'), ctrl }, hud_visible)
            == Command::Quit,
        command_spec(InputEvent::Key { key: KeyInput::Char('c'), ctrl: true }, hud_visible)
            == Command::Quit,
        command_spec(InputEvent::Key { key: KeyInput::Esc, ctrl }, hud_visible) == if hud_visible {
            Command::CloseHud
        } else {
            Command::Quit
        },
{
}

/// Only Esc and the HUD keys depend on whether the HUD is shown: the camera
/// keys keep working while it is open, so the user is never locked out of
/// camera control.
pub proof fn lemma_bindings_outside_hud_fixed(event: InputEvent)
    requires
        !(event matches InputEvent::Key { key, .. } && (is_hud_key(key) || key == KeyInput::Esc)),
    ensures
        command_spec(event, true) == command_spec(event, false),
{
}

/// While the HUD is shown every HUD key goes to it; while it is hidden none
/// does, and the arrows orbit instead.
pub proof fn lemma_hud_keys_routed(key: KeyInput, ctrl: bool)
    requires
        is_hud_key(key),
    ensures
        command_spec(InputEvent::Key { key, ctrl }, true) == Command::Hud(key),
        !(command_spec(InputEvent::Key { key, ctrl }, false) is Hud),
        (key == KeyInput::Up || key == KeyInput::Down || key == KeyInput::Left || key
            == KeyInput::Right) ==> command_spec(InputEvent::Key { key, ctrl }, false) is Orbit,
{
}

/// The camera letters ignore case: a letter and its upper-case form give
/// the same command, whatever the HUD shows and whatever modifier is held.
pub proof fn lemma_camera_letters_ignore_case(hud_visible: bool, ctrl: bool)
    ensures
        forall|lower: char, upper: char|
            #![trigger command_spec(InputEvent::Key { key: KeyInput::Char(lower), ctrl }, hud_visible), command_spec(InputEvent::Key { key: KeyInput::Char(upper), ctrl }, hud_visible)]
            ((lower == 'h' && upper == 'H') || (lower == 'j' && upper == 'J') || (lower == 'k'
                && upper == 'K') || (lower == 'l' && upper == 'L') || (lower == 'w' && upper == 'W')
                || (lower == 'a' && upper == 'A') || (lower == 's' && upper == 'S') || (lower
                == 'd' && upper == 'D') || (lower == 'o' && upper == 'O')) ==> command_spec(
                InputEvent::Key { key: KeyInput::Char(lower), ctrl },
                hud_visible,
            ) == command_spec(InputEvent::Key { key: KeyInput::Char(upper), ctrl }, hud_visible),
{
}

/// With the HUD hidden, `h j k l` orbit exactly as the arrows do: `j` as
/// Left, `k` as Right, `h` as Up and `l` as Down.
pub proof fn lemma_letters_orbit_like_arrows(ctrl: bool)
    ensures
        command_spec(InputEvent::Key { key: KeyInput::Char('j'), ctrl }, false) == command_spec(
            InputEvent::Key { key: KeyInput::Left, ctrl },
            false,
        ),
        command_spec(InputEvent::Key { key: KeyInput::Char('k'), ctrl }, false) == command_spec(
            InputEvent::Key { key: KeyInput::Right, ctrl },
            false,
        ),
        command_spec(InputEvent::Key { key: KeyInput::Char('h'), ctrl }, false) == command_spec(
            InputEvent::Key { key: KeyInput::Up, ctrl },
            false,
        ),
        command_spec(InputEvent::Key { key: KeyInput::Char('l'), ctrl }, false) == command_spec(
            InputEvent::Key { key: KeyInput::Down, ctrl },
            false,
        ),
{
}

/// Opposite camera keys move the opposite way by one step along one axis:
/// `j`/`k` turn in yaw, `h`/`l` in pitch, `a`/`d` pan right, `s`/`w` pan
/// forward, and `+`/`-` zoom in and out.
pub proof fn lemma_camera_keys_opposite(c1: char, c2: char, hud_visible: bool, ctrl: bool)
    requires
        (c1 == 'j' && c2 == 'k') || (c1 == 'l' && c2 == 'h') || (c1 == 'a' && c2 == 'd') || (c1
            == 's' && c2 == 'w'),
    ensures
        ({
            let e1 = command_spec(InputEvent::Key { key: KeyInput::Char(c1), ctrl }, hud_visible);
            let e2 = command_spec(InputEvent::Key { key: KeyInput::Char(c2), ctrl }, hud_visible);
            ||| (e1 matches Command::Orbit { yaw: y1, pitch: p1 } && e2 matches Command::Orbit {
                yaw: y2,
                pitch: p2,
            } && y1 == -y2 && p1 == -p2 && (y1 == 0) != (p1 == 0) && -1 <= y1 + p1 <= 1 && y2
                + p2 == 1)
            ||| (e1 matches Command::Pan { right: r1, forward: f1 } && e2 matches Command::Pan {
                right: r2,
                forward: f2,
            } && r1 == -r2 && f1 == -f2 && (r1 == 0) != (f1 == 0) && -1 <= r1 + f1 <= 1 && r2
                + f2 == 1)
        }),
        command_spec(InputEvent::Key { key: KeyInput::Char('+'), ctrl }, hud_visible)
            == Command::ZoomIn,
        command_spec(InputEvent::Key { key: KeyInput::Char('-'), ctrl }, hud_visible)
            == Command::ZoomOut,
{
}

/// What the viewer does after the HUD reported an action.
#[derive(Clone, Copy, Debug, PartialEq, Eq, Structural)]
pub struct HudReaction {
    /// Load the PLY file again with the new cap or opacity mode.
    pub reload: bool,
    /// Give the camera the HUD's field of view.
    pub refresh_fov: bool,
    /// Switch the display to the HUD's backend and delete the Kitty image.
    pub switch_backend: bool,
    /// Give the display the HUD's pixel density.
    pub apply_density: bool,
    /// Clear the screen before the next frame.
    pub clear_text: bool,
    /// Recompute the framebuffer size.
    pub resize_framebuffer: bool,
}

/// The reaction to each HUD action: a reload for the splat cap and the
/// opacity mode; the field of view for a real-time value; a backend switch
/// or a density change clears the text layer and resizes the framebuffer.
pub open spec fn hud_reaction_spec(action: HudAction) -> HudReaction {
    HudReaction {
        reload: action == HudAction::ReloadSplats,
        refresh_fov: action == HudAction::ValueChanged,
        switch_backend: action == HudAction::BackendChanged,
        apply_density: action == HudAction::DensityChanged,
        clear_text: action == HudAction::BackendChanged || action == HudAction::DensityChanged,
        resize_framebuffer: action == HudAction::BackendChanged || action
            == HudAction::DensityChanged,
    }
}

/// What to do after the HUD reported `action` (see [`hud_reaction_spec`]).
pub fn hud_reaction(action: HudAction) -> (r: HudReaction)
    ensures
        r == hud_reaction_spec(action),
{
    HudReaction {
        reload: action == HudAction::ReloadSplats,
        refresh_fov: action == HudAction::ValueChanged,
        switch_backend: action == HudAction::BackendChanged,
        apply_density: action == HudAction::DensityChanged,
        clear_text: action == HudAction::BackendChanged || action == HudAction::DensityChanged,
        resize_framebuffer: action == HudAction::BackendChanged || action
            == HudAction::DensityChanged,
    }
}

/// Every command but `Quit` and `Ignore` changes what is drawn, so the next
/// frame must be rendered after it.
pub open spec fn redraws(cmd: Command) -> bool {
    !(cmd is Quit || cmd is Ignore)
}

/// Whether the next frame must be rendered after `cmd`.
pub fn command_redraws(cmd: Command) -> (r: bool)
    ensures
        r == redraws(cmd),
{
    match cmd {
        Command::Quit | Command::Ignore => false,
        _ => true,
    }
}

/// Hiding the HUD while the Kitty image lies under the text layer leaves
/// stale text cells, so the screen is cleared before the next frame.
pub open spec fn clears_text(cmd: Command, hud_visible: bool, backend: Backend) -> bool {
    backend == Backend::Kitty && hud_visible && (cmd == Command::CloseHud || cmd
        == Command::ToggleHud)
}

/// Whether the screen must be cleared before the next frame after `cmd`,
/// given whether the HUD was shown and the backend in use.
pub fn command_clears_text(cmd: Command, hud_visible: bool, backend: Backend) -> (r: bool)
    ensures
        r == clears_text(cmd, hud_visible, backend),
{
    backend == Backend::Kitty && hud_visible && (cmd == Command::CloseHud || cmd
        == Command::ToggleHud)
}

} // verus!
