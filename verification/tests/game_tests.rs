use menu_engine::engine::{ToButton, Transition};
use menu_engine::game::game::Game;
use menu_engine::player::{Hand, Player, Position};

struct Ctx {
    ran: bool,
}

struct Go;

impl Transition<Ctx> for Go {
    // The erased form of the callback's promise; this callback promises
    // nothing of itself.
    fn run_post(&self, _pre: Ctx, _cur: Ctx, _r: Option<usize>) -> bool {
        true
    }

    fn run(&self, ctx: &mut Ctx) -> Option<usize> {
        ctx.ran = true;
        Some(1)
    }
}

#[test]
fn new_game_holds_the_starting_roster() {
    let game = Game::new();
    assert_eq!(game.teams.len(), 1);
    assert_eq!(game.teams[0].players.len(), 1);
    assert_eq!(game.teams[0].players[0].name, "muhagal");
    assert_eq!(game.teams[0].players[0].cost, 100);
}

#[test]
fn player_new_keeps_fields() {
    let p = Player::new("ivan".to_string(), Position::Goalkeeper, Hand::Left, 42);
    assert_eq!(p.name, "ivan");
    assert_eq!(p.position, Position::Goalkeeper);
    assert_eq!(p.hand, Hand::Left);
    assert_eq!(p.cost, 42);
}

#[test]
fn player_turns_into_a_button_with_its_name() {
    let p = Player::new("oleg".to_string(), Position::Forward, Hand::Right, 10);
    let b = p.to_button(Go);
    assert_eq!(b.draw(), "  oleg  ");
    assert_eq!(b.text, "oleg");
}

#[test]
fn player_button_runs_the_given_callback() {
    let mut page: menu_engine::engine::Page<Go> = menu_engine::engine::Page::new(0);
    let p = Player::new("vera".to_string(), Position::Halfback, Hand::Left, 5);
    page.add_button_widget(p.to_button(Go));
    let mut ctx = Ctx { ran: false };
    assert_eq!(page.enter(&mut ctx), Some(1));
    assert!(ctx.ran);
}
