use bin_ocr::engine::{EngineRequest, EngineState, EngineStep};
use bin_ocr::viewer::{
    build_save_content, build_save_path, ViewerAction, ViewerState, WorkerResponse,
};

fn images() -> Vec<String> {
    vec!["a.png".to_string(), "b.png".to_string(), "c.png".to_string()]
}

#[test]
fn save_content_with_a_result_and_a_note() {
    let liste = vec!["a.png".to_string(), "b.png".to_string()];
    assert_eq!(
        build_save_content(1, &liste, &Some((-3, 5)), "note"),
        "Image : b.png\nIndex : 2 / 2\nRésultat Solve : valeur_a = -3, valeur_b = 5\nNote utilisateur : note\n"
    );
}

#[test]
fn save_content_without_result() {
    let liste = vec!["a.png".to_string(), "b.png".to_string()];
    assert_eq!(
        build_save_content(0, &liste, &None, ""),
        "Image : a.png\nIndex : 1 / 2\nRésultat Solve : (aucun)\n"
    );
}

#[test]
fn save_content_with_extreme_values() {
    let liste = vec!["x".to_string()];
    assert_eq!(
        build_save_content(0, &liste, &Some((i32::MIN, i32::MAX)), ""),
        "Image : x\nIndex : 1 / 1\nRésultat Solve : valeur_a = -2147483648, valeur_b = 2147483647\n"
    );
}

#[test]
fn save_path_of_an_image() {
    assert_eq!(build_save_path("src/images/BINimg1.png"), "result_src_images_BINimg1.txt");
    assert_eq!(build_save_path("a.png.png/b"), "result_a_b.txt");
}

#[test]
fn navigation_wraps_around() {
    let mut v = ViewerState::new(images());
    v.previous();
    assert_eq!(v.current_index, 2);
    v.next();
    assert_eq!(v.current_index, 0);
    v.next();
    v.next();
    v.next();
    assert_eq!(v.current_index, 0);
}

#[test]
fn next_then_previous_comes_back() {
    let mut v = ViewerState::new(images());
    for start in 0..3 {
        while v.current_index != start {
            v.next();
        }
        v.next();
        v.previous();
        assert_eq!(v.current_index, start);
        v.previous();
        v.next();
        assert_eq!(v.current_index, start);
    }
}

#[test]
fn navigation_clears_the_view() {
    let mut v = ViewerState::new(images());
    v.worker_reply(WorkerResponse::FindDone(vec![(0, 0, 1, 1)]));
    v.worker_reply(WorkerResponse::SolveDone(1, 1));
    v.next();
    assert!(v.bounding_boxes.is_empty());
    assert!(v.loaded_image_path.is_none());
    assert!(v.user_text.is_empty());
    assert!(v.status_text.is_empty());
    assert_eq!(v.solve_result, Some((1, 1)));
}

#[test]
fn find_asks_for_the_current_image() {
    let mut v = ViewerState::new(images());
    v.next();
    let a = v.find();
    assert_eq!(v.status_text, "Recherche en cours…");
    assert!(matches!(a, ViewerAction::Find { image_path } if image_path == "b.png"));
}

#[test]
fn solve_and_load_announce_themselves() {
    let mut v = ViewerState::new(images());
    let a = v.solve();
    assert_eq!(v.status_text, "Résolution en cours…");
    assert!(matches!(a, ViewerAction::Solve { image_path } if image_path == "a.png"));
    let a = v.load();
    assert_eq!(v.status_text, "Chargement en cours…");
    assert!(matches!(a, ViewerAction::Load));
}

#[test]
fn found_boxes_are_shown() {
    let mut v = ViewerState::new(images());
    let a = v.worker_reply(WorkerResponse::FindDone(vec![(0, 0, 1, 1), (2, 2, 3, 3)]));
    assert_eq!(v.status_text, "Find : 2 rectangle(s) détecté(s)");
    assert_eq!(v.bounding_boxes, vec![(0, 0, 1, 1), (2, 2, 3, 3)]);
    assert!(matches!(a, ViewerAction::MeasureAndListen { image_path } if image_path == "a.png"));
    v.image_measured(40, 20);
    assert_eq!(v.image_size, (40, 20));
}

#[test]
fn solved_values_are_shown() {
    let mut v = ViewerState::new(images());
    let a = v.worker_reply(WorkerResponse::SolveDone(-3, 5));
    assert_eq!(v.solve_result, Some((-3, 5)));
    assert_eq!(v.status_text, "Résultat Solve : valeur_a = -3, valeur_b = 5");
    assert_eq!(
        v.user_text,
        "la valeur décimal du mot binaire dans le cas d'un entier signé est -3 et dans le cas contraire 5"
    );
    assert!(matches!(a, ViewerAction::Listen));
}

#[test]
fn a_loaded_image_joins_the_list() {
    let mut v = ViewerState::new(images());
    let a = v.worker_reply(WorkerResponse::LoadDone(
        vec![],
        "orig.png".to_string(),
        "src/images/loaded_0.png".to_string(),
    ));
    assert_eq!(v.status_text, "Chargé avec succès !");
    assert_eq!(v.liste_images.len(), 5);
    assert_eq!(v.liste_images[3], "orig.png");
    assert_eq!(v.current_index, 4);
    assert_eq!(v.loaded_image_path, Some("src/images/loaded_0.png".to_string()));
    assert!(matches!(a, ViewerAction::Listen));
    let a = v.worker_reply(WorkerResponse::FindDone(vec![]));
    assert!(matches!(a, ViewerAction::MeasureAndListen { image_path } if image_path == "src/images/loaded_0.png"));
}

#[test]
fn a_known_image_is_not_added_twice() {
    let mut v = ViewerState::new(images());
    v.worker_reply(WorkerResponse::LoadDone(vec![], "b.png".to_string(), "a.png".to_string()));
    assert_eq!(v.liste_images, images());
    assert_eq!(v.current_index, 0);
}

#[test]
fn errors_are_shown() {
    let mut v = ViewerState::new(images());
    let a = v.worker_reply(WorkerResponse::Error("boom".to_string()));
    assert_eq!(v.status_text, "Erreur : boom");
    assert!(matches!(a, ViewerAction::Listen));
}

#[test]
fn saving_reports_on_the_file() {
    let mut v = ViewerState::new(images());
    let a = v.save();
    assert!(matches!(&a, ViewerAction::Save { path, content }
        if path == "result_a.txt" && content == "Image : a.png\nIndex : 1 / 3\nRésultat Solve : (aucun)\n"));
    v.save_finished("result_a.txt", Ok(()));
    assert_eq!(v.status_text, "Sauvegardé : result_a.txt");
    v.save_finished("result_a.txt", Err("disk full".to_string()));
    assert_eq!(v.status_text, "Erreur sauvegarde : disk full");
}

#[test]
fn the_server_answers_for_the_viewed_image() {
    let mut s = EngineState::new();
    assert_eq!(s.handle(&EngineRequest::Solve), EngineStep::ReplyNone);
    assert_eq!(s.handle(&EngineRequest::Find), EngineStep::ReplyNone);
    assert_eq!(s.handle(&EngineRequest::UpdateViewedImage { index: 42 }), EngineStep::Nothing);
    assert_eq!(s.current_viewed_index, Some(42));
    assert_eq!(s.handle(&EngineRequest::Solve), EngineStep::RunOcr { index: 42 });
    assert_eq!(s.handle(&EngineRequest::Find), EngineStep::ExtractPositions { index: 42 });
    assert_eq!(s.handle(&EngineRequest::Load), EngineStep::ConvertAndStore);
    assert_eq!(s.current_viewed_index, Some(42));
}

#[test]
fn the_note_is_typed_by_the_user() {
    let mut v = ViewerState::new(images());
    v.text_changed("ma note".to_string());
    assert_eq!(v.user_text, "ma note");
    let a = v.save();
    assert!(matches!(&a, ViewerAction::Save { content, .. }
        if content == "Image : a.png\nIndex : 1 / 3\nRésultat Solve : (aucun)\nNote utilisateur : ma note\n"));
}
