use image_chooser::engine::{Invalidation, SelectionEngine};
use image_chooser::image_ref::ImageRef;

fn img(name: &str) -> ImageRef {
    ImageRef::new(name.chars().collect())
}

fn name_of(r: &ImageRef) -> String {
    r.name().iter().collect()
}

/// Drain the engine: the winner followed by every later winner, i.e. all
/// images it still held, in judgment order.
fn drain_names(engine: &mut SelectionEngine) -> Vec<String> {
    let mut out = Vec::new();
    loop {
        let (winner, _) = engine.current_pair();
        match winner {
            Some(w) => out.push(name_of(w)),
            None => break,
        }
        engine.advance();
    }
    out
}

#[test]
fn new_engine_is_drained() {
    let engine = SelectionEngine::new();
    assert!(engine.is_drained());
    assert_eq!(engine.pool_len(), 0);
    let (winner, challenger) = engine.current_pair();
    assert!(winner.is_none());
    assert!(challenger.is_none());
}

#[test]
fn load_folder_conserves_qualifying_entries() {
    // Whatever order the shuffle picks, {winner} with the pool must be
    // exactly the qualifying entries, on every run.
    for _ in 0..20 {
        let entries = vec![img("a.jpg"), img("b.png"), img("c.txt"), img("d.JPG")];
        let mut engine = SelectionEngine::new();
        engine.load_folder(entries);
        assert_eq!(engine.pool_len(), 1);
        let mut names = drain_names(&mut engine);
        names.sort();
        assert_eq!(names, vec!["a.jpg".to_string(), "b.png".to_string()]);
    }
}

#[test]
fn load_folder_scenario_two_qualifiers() {
    let entries = vec![img("a.jpg"), img("b.png"), img("c.txt"), img("d.JPG")];
    let mut engine = SelectionEngine::new();
    engine.load_folder(entries);
    let (winner, challenger) = engine.current_pair();
    let w = name_of(winner.expect("a qualifying file must seed the winner"));
    let c = name_of(challenger.expect("the other qualifying file must wait in the pool"));
    assert!(w == "a.jpg" || w == "b.png");
    assert!(c == "a.jpg" || c == "b.png");
    assert_ne!(w, c);
}

#[test]
fn load_folder_with_no_qualifying_files_is_drained() {
    let entries = vec![img("c.txt"), img("d.JPG")];
    let mut engine = SelectionEngine::new();
    engine.load_folder(entries);
    assert!(engine.is_drained());
    let (winner, challenger) = engine.current_pair();
    assert!(winner.is_none());
    assert!(challenger.is_none());
}

#[test]
fn load_folder_replaces_previous_state() {
    let mut engine = SelectionEngine::from_parts(vec![img("old.jpg")], Some(img("older.jpg")));
    engine.load_folder(vec![img("new.png")]);
    let mut names = drain_names(&mut engine);
    names.sort();
    assert_eq!(names, vec!["new.png".to_string()]);
}

#[test]
fn advance_promotes_challenger_and_forgets_winner() {
    let mut engine = SelectionEngine::from_parts(
        vec![img("x.jpg"), img("y.jpg")],
        Some(img("w.jpg")),
    );
    let stale = engine.advance();
    assert_eq!(stale, Invalidation { winner: true, challenger: true });
    let (winner, _) = engine.current_pair();
    assert_eq!(name_of(winner.unwrap()), "y.jpg");
    // The previous winner is unrecoverable: it never shows up again.
    let rest = drain_names(&mut engine);
    assert_eq!(rest, vec!["y.jpg".to_string(), "x.jpg".to_string()]);
}

#[test]
fn advance_with_empty_pool_clears_winner() {
    let mut engine = SelectionEngine::from_parts(Vec::new(), Some(img("w.jpg")));
    let stale = engine.advance();
    assert_eq!(stale, Invalidation { winner: true, challenger: true });
    assert!(engine.is_drained());
}

#[test]
fn discard_keeps_winner_and_shrinks_pool() {
    let mut engine = SelectionEngine::from_parts(
        vec![img("x.jpg"), img("y.jpg")],
        Some(img("w.jpg")),
    );
    let stale = engine.discard();
    assert_eq!(stale, Invalidation { winner: false, challenger: true });
    assert_eq!(engine.pool_len(), 1);
    let (winner, challenger) = engine.current_pair();
    assert_eq!(name_of(winner.unwrap()), "w.jpg");
    assert_eq!(name_of(challenger.unwrap()), "x.jpg");
}

#[test]
fn discard_on_empty_pool_changes_nothing() {
    let mut engine = SelectionEngine::from_parts(Vec::new(), Some(img("w.jpg")));
    engine.discard();
    assert_eq!(engine.pool_len(), 0);
    let (winner, _) = engine.current_pair();
    assert_eq!(name_of(winner.unwrap()), "w.jpg");
}

#[test]
fn scenario_discard_then_advance_twice() {
    // pool = [x, y] (y on top), winner = w.
    let mut engine = SelectionEngine::from_parts(
        vec![img("x.jpg"), img("y.jpg")],
        Some(img("w.jpg")),
    );

    engine.discard();
    assert_eq!(engine.pool_len(), 1);
    let (winner, challenger) = engine.current_pair();
    assert_eq!(name_of(winner.unwrap()), "w.jpg");
    assert_eq!(name_of(challenger.unwrap()), "x.jpg");

    engine.advance();
    assert_eq!(engine.pool_len(), 0);
    let (winner, challenger) = engine.current_pair();
    assert_eq!(name_of(winner.unwrap()), "x.jpg");
    assert!(challenger.is_none());

    engine.advance();
    assert!(engine.is_drained());
    let (winner, challenger) = engine.current_pair();
    assert!(winner.is_none());
    assert!(challenger.is_none());
}

#[test]
fn repeated_advance_reaches_drained() {
    let entries = vec![img("a.jpg"), img("b.jpg"), img("c.png"), img("d.png")];
    let mut engine = SelectionEngine::new();
    engine.load_folder(entries);
    while engine.pool_len() > 0 {
        engine.advance();
    }
    let (winner, _) = engine.current_pair();
    assert!(winner.is_some());
    engine.advance();
    assert!(engine.is_drained());
}
