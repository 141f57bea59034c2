use menu_engine::engine::{
    Book, Button, ButtonBuilder, JumpOutcome, Page, Text, TextBuilder, Transition,
};

/// The context handed to transition callbacks in these tests: it records
/// which callback ran.
struct Ctx {
    hits: Vec<String>,
}

/// A test callback: records its label, then asks for the configured jump.
struct Jump {
    label: String,
    target: Option<usize>,
}

impl Jump {
    fn to(label: &str, target: Option<usize>) -> Jump {
        Jump { label: label.to_string(), target }
    }
}

impl Transition<Ctx> for Jump {
    // The erased form of the callback's promise; this callback promises
    // nothing of itself.
    fn run_post(&self, _pre: Ctx, _cur: Ctx, _r: Option<usize>) -> bool {
        true
    }

    fn run(&self, ctx: &mut Ctx) -> Option<usize> {
        ctx.hits.push(self.label.clone());
        self.target
    }
}

fn text(label: &str) -> Text {
    TextBuilder::new(label).build()
}

fn button(label: &str, jump: Option<Jump>) -> Button<Jump> {
    match jump {
        Some(j) => ButtonBuilder::new(label).jump(j).build(),
        None => ButtonBuilder::new(label).build(),
    }
}

#[test]
fn iterators() {
    let mut h: Vec<(u32, String)> = vec![];
    h.push((0, "one".to_string()));
    h.push((2, "two".to_string()));
    h.push((5, "three".to_string()));
    h.push((6, "four".to_string()));
    h.push((10, "five".to_string()));

    for (k, v) in h.iter() {
        println!("key: {}, value: {}", k, v);
    }

    println!("------");

    for (k, v) in h.iter().find(|item| item.0 == 5) {
        println!("key: {}, value: {}", k, v);
    }
}

#[test]
fn welcome_page_renders_with_decorated_selection() {
    let mut page: Page<Jump> = Page::new(0);
    page.add_text_widget(text("Welcome"));
    page.add_button_widget(ButtonBuilder::new("A").tagged(true).build());
    page.add_button_widget(button("B", None));
    page.add_button_widget(button("C", None));
    assert_eq!(page.draw(), "Welcome\n> A <\n  B  \n  C  \n");
}

#[test]
fn render_keeps_insertion_order_of_mixed_widgets() {
    let mut page: Page<Jump> = Page::new(0);
    page.add_text_widget(text("first"));
    page.add_button_widget(button("second", None));
    page.add_text_widget(text("third"));
    assert_eq!(page.draw(), "first\n> second <\nthird\n");
}

#[test]
fn exactly_one_selected_after_any_moves() {
    let mut page: Page<Jump> = Page::new(0);
    page.add_text_widget(text("head"));
    page.add_button_widget(button("A", None));
    page.add_button_widget(button("B", None));
    page.add_button_widget(button("C", None));
    let moves: [bool; 7] = [true, true, false, true, false, false, true];
    for forward in moves.iter() {
        if *forward {
            page.increase_index();
        } else {
            page.decrease_index();
        }
        let rendered = page.draw();
        let selected = rendered.lines().filter(|l| l.starts_with('>')).count();
        assert_eq!(selected, 1);
    }
}

#[test]
fn move_next_cycles_back_after_button_count_steps() {
    let mut page: Page<Jump> = Page::new(0);
    page.add_button_widget(button("A", None));
    page.add_text_widget(text("middle"));
    page.add_button_widget(button("B", None));
    page.add_button_widget(button("C", None));
    let start = page.draw();
    for _ in 0..3 {
        page.increase_index();
    }
    assert_eq!(page.draw(), start);
    for _ in 0..3 {
        page.decrease_index();
    }
    assert_eq!(page.draw(), start);
}

#[test]
fn move_next_then_activate_runs_second_button() {
    let mut page: Page<Jump> = Page::new(0);
    page.add_text_widget(text("Welcome"));
    page.add_button_widget(ButtonBuilder::new("A").tagged(true).jump(Jump::to("A", None)).build());
    page.add_button_widget(button("B", Some(Jump::to("B", None))));
    page.add_button_widget(button("C", Some(Jump::to("C", None))));
    page.increase_index();
    let mut ctx = Ctx { hits: vec![] };
    let r = page.enter(&mut ctx);
    assert_eq!(r, None);
    assert_eq!(ctx.hits, vec!["B".to_string()]);
}

#[test]
fn enter_returns_callback_result_unchanged() {
    let mut page: Page<Jump> = Page::new(0);
    page.add_button_widget(button("go", Some(Jump::to("go", Some(5)))));
    let mut ctx = Ctx { hits: vec![] };
    assert_eq!(page.enter(&mut ctx), Some(5));
}

#[test]
fn enter_without_buttons_reports_nothing() {
    let mut page: Page<Jump> = Page::new(0);
    page.add_text_widget(text("only text"));
    let mut ctx = Ctx { hits: vec![] };
    assert_eq!(page.enter(&mut ctx), None);
    assert!(ctx.hits.is_empty());
}

#[test]
fn moves_without_buttons_are_no_ops() {
    let mut page: Page<Jump> = Page::new(0);
    page.add_text_widget(text("alone"));
    page.increase_index();
    page.decrease_index();
    assert_eq!(page.draw(), "alone\n");
    assert_eq!(page.index, None);
}

#[test]
fn first_button_becomes_selected_whatever_its_flag() {
    let mut page: Page<Jump> = Page::new(0);
    page.add_button_widget(ButtonBuilder::new("A").build());
    page.add_button_widget(ButtonBuilder::new("B").tagged(true).build());
    assert_eq!(page.draw(), "> A <\n  B  \n");
}

#[test]
fn button_builder_sets_tag_and_label() {
    let b: Button<Jump> = ButtonBuilder::new("Play").tag(("[", "]")).tagged(true).build();
    assert_eq!(b.draw(), "[ Play ]");
    let plain: Button<Jump> = ButtonBuilder::new("Play").build();
    assert_eq!(plain.draw(), "  Play  ");
}

#[test]
fn text_builder_keeps_label() {
    let t = TextBuilder::new("hello").build();
    assert_eq!(t.draw(), "hello");
}

fn three_pages() -> Book<Jump> {
    let mut front: Page<Jump> = Page::new(0);
    front.add_text_widget(text("front"));
    front.add_button_widget(button("to two", Some(Jump::to("to two", Some(2)))));
    front.add_button_widget(button("nowhere", Some(Jump::to("nowhere", None))));
    front.add_button_widget(button("broken", Some(Jump::to("broken", Some(99)))));
    let mut second: Page<Jump> = Page::new(1);
    second.add_text_widget(text("second"));
    let mut third: Page<Jump> = Page::new(2);
    third.add_text_widget(text("third"));
    third.add_button_widget(button("back", Some(Jump::to("back", Some(0)))));
    Book::new(0, vec![front, second, third])
}

#[test]
fn book_activate_moves_to_named_page() {
    let mut book = three_pages();
    let mut ctx = Ctx { hits: vec![] };
    let r = book.enter(&mut ctx);
    assert_eq!(r, JumpOutcome::Moved(2));
    assert_eq!(book.current_page_number, 2);
    assert_eq!(book.draw(), "third\n> back <\n");
}

#[test]
fn book_activate_without_target_stays() {
    let mut book = three_pages();
    book.increase_index();
    let mut ctx = Ctx { hits: vec![] };
    let r = book.enter(&mut ctx);
    assert_eq!(r, JumpOutcome::Stayed);
    assert_eq!(book.current_page_number, 0);
    assert_eq!(ctx.hits, vec!["nowhere".to_string()]);
}

#[test]
fn book_rejects_unknown_jump_target_loudly() {
    let mut book = three_pages();
    book.increase_index();
    book.increase_index();
    let before = book.draw();
    let mut ctx = Ctx { hits: vec![] };
    let r = book.enter(&mut ctx);
    assert_eq!(r, JumpOutcome::Rejected(99));
    assert_eq!(book.current_page_number, 0);
    assert_eq!(book.draw(), before);
}

#[test]
fn book_navigation_reaches_current_page_only() {
    let mut book = three_pages();
    book.increase_index();
    let mut ctx = Ctx { hits: vec![] };
    assert_eq!(book.enter(&mut ctx), JumpOutcome::Stayed);
    book.decrease_index();
    assert_eq!(book.enter(&mut ctx), JumpOutcome::Moved(2));
    assert_eq!(ctx.hits, vec!["nowhere".to_string(), "to two".to_string()]);
}

#[test]
fn book_get_page_finds_by_number_not_position() {
    let mut a: Page<Jump> = Page::new(7);
    a.add_text_widget(text("seven"));
    let mut b: Page<Jump> = Page::new(3);
    b.add_text_widget(text("three"));
    let book = Book::new(3, vec![a, b]);
    assert!(book.get_page(7).is_some());
    assert!(book.get_page(3).is_some());
    assert!(book.get_page(0).is_none());
    assert_eq!(book.draw(), "three\n");
}

#[test]
fn book_enter_without_active_callback_stays_put() {
    let mut quiet: Page<Jump> = Page::new(0);
    quiet.add_text_widget(text("quiet"));
    quiet.add_button_widget(button("inert", None));
    let mut book = Book::new(0, vec![quiet]);
    let before = book.draw();
    let mut ctx = Ctx { hits: vec![] };
    assert_eq!(book.enter(&mut ctx), JumpOutcome::Stayed);
    assert_eq!(book.current_page_number, 0);
    assert_eq!(book.draw(), before);
    assert!(ctx.hits.is_empty());
}

#[test]
fn apply_jump_outcomes() {
    let mut book = three_pages();
    assert_eq!(book.apply_jump(None), JumpOutcome::Stayed);
    assert_eq!(book.current_page_number, 0);
    assert_eq!(book.apply_jump(Some(1)), JumpOutcome::Moved(1));
    assert_eq!(book.current_page_number, 1);
    assert_eq!(book.apply_jump(Some(42)), JumpOutcome::Rejected(42));
    assert_eq!(book.current_page_number, 1);
}
