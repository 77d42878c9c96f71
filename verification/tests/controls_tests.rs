use tsplat::controls::{
    Command, HudReaction, InputEvent, command_clears_text, command_for, command_redraws,
    hud_reaction,
};
use tsplat::display::Backend;
use tsplat::hud::{HudAction, KeyInput};

fn key(k: KeyInput) -> InputEvent {
    InputEvent::Key { key: k, ctrl: false }
}

#[test]
fn quitting() {
    for visible in [false, true] {
        assert_eq!(command_for(key(KeyInput::Char('q')), visible), Command::Quit);
        assert_eq!(command_for(InputEvent::Key { key: KeyInput::Char('c'), ctrl: true }, visible), Command::Quit);
    }
    assert_eq!(command_for(key(KeyInput::Char('c')), false), Command::Ignore);
    assert_eq!(command_for(key(KeyInput::Esc), false), Command::Quit);
    assert_eq!(command_for(key(KeyInput::Esc), true), Command::CloseHud);
    assert_eq!(command_for(key(KeyInput::Tab), true), Command::ToggleHud);
    assert_eq!(command_for(key(KeyInput::Tab), false), Command::ToggleHud);
}

#[test]
fn camera_keys_work_with_the_hud_open() {
    for visible in [false, true] {
        assert_eq!(command_for(key(KeyInput::Char('h')), visible), Command::Orbit { yaw: 0, pitch: 1 });
        assert_eq!(command_for(key(KeyInput::Char('L')), visible), Command::Orbit { yaw: 0, pitch: -1 });
        assert_eq!(command_for(key(KeyInput::Char('j')), visible), Command::Orbit { yaw: -1, pitch: 0 });
        assert_eq!(command_for(key(KeyInput::Char('K')), visible), Command::Orbit { yaw: 1, pitch: 0 });
        assert_eq!(command_for(key(KeyInput::Char('=')), visible), Command::ZoomIn);
        assert_eq!(command_for(key(KeyInput::Char('_')), visible), Command::ZoomOut);
        assert_eq!(command_for(key(KeyInput::Char('w')), visible), Command::Pan { right: 0, forward: 1 });
        assert_eq!(command_for(key(KeyInput::Char('S')), visible), Command::Pan { right: 0, forward: -1 });
        assert_eq!(command_for(key(KeyInput::Char('a')), visible), Command::Pan { right: -1, forward: 0 });
        assert_eq!(command_for(key(KeyInput::Char('D')), visible), Command::Pan { right: 1, forward: 0 });
        assert_eq!(command_for(key(KeyInput::Char('o')), visible), Command::ToggleAutoOrbit);
        assert_eq!(command_for(InputEvent::ScrollUp, visible), Command::ZoomIn);
        assert_eq!(command_for(InputEvent::ScrollDown, visible), Command::ZoomOut);
        assert_eq!(command_for(InputEvent::Other, visible), Command::Ignore);
    }
}

#[test]
fn arrows_follow_the_hud() {
    assert_eq!(command_for(key(KeyInput::Left), true), Command::Hud(KeyInput::Left));
    assert_eq!(command_for(key(KeyInput::Left), false), Command::Orbit { yaw: -1, pitch: 0 });
    assert_eq!(command_for(key(KeyInput::Right), false), Command::Orbit { yaw: 1, pitch: 0 });
    assert_eq!(command_for(key(KeyInput::Up), false), Command::Orbit { yaw: 0, pitch: 1 });
    assert_eq!(command_for(key(KeyInput::Down), false), Command::Orbit { yaw: 0, pitch: -1 });
    assert_eq!(command_for(key(KeyInput::PageUp), true), Command::Hud(KeyInput::PageUp));
    assert_eq!(command_for(key(KeyInput::PageDown), false), Command::Ignore);
    assert_eq!(command_for(key(KeyInput::Char('.')), true), Command::Hud(KeyInput::Char('.')));
    assert_eq!(command_for(key(KeyInput::Char('<')), false), Command::Ignore);
}

#[test]
fn reactions_to_hud_actions() {
    let none = HudReaction {
        reload: false,
        refresh_fov: false,
        switch_backend: false,
        apply_density: false,
        clear_text: false,
        resize_framebuffer: false,
    };
    assert_eq!(hud_reaction(HudAction::NoChange), none);
    assert_eq!(hud_reaction(HudAction::ReloadSplats), HudReaction { reload: true, ..none });
    assert_eq!(hud_reaction(HudAction::ValueChanged), HudReaction { refresh_fov: true, ..none });
    assert_eq!(
        hud_reaction(HudAction::BackendChanged),
        HudReaction { switch_backend: true, clear_text: true, resize_framebuffer: true, ..none }
    );
    assert_eq!(
        hud_reaction(HudAction::DensityChanged),
        HudReaction { apply_density: true, clear_text: true, resize_framebuffer: true, ..none }
    );
}

#[test]
fn redraw_and_clear_rules() {
    assert!(!command_redraws(Command::Quit));
    assert!(!command_redraws(Command::Ignore));
    assert!(command_redraws(Command::ToggleHud));
    assert!(command_redraws(Command::ZoomOut));
    assert!(command_redraws(Command::Hud(KeyInput::PageUp)));
    assert!(command_clears_text(Command::CloseHud, true, Backend::Kitty));
    assert!(command_clears_text(Command::ToggleHud, true, Backend::Kitty));
    assert!(!command_clears_text(Command::ToggleHud, false, Backend::Kitty));
    assert!(!command_clears_text(Command::ToggleHud, true, Backend::HalfBlock));
    assert!(!command_clears_text(Command::ZoomIn, true, Backend::Kitty));
}
