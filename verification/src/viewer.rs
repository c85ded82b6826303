//! The decisions of the image viewer: which image is shown, what the status
//! line says, what is saved, and what the worker is asked to do. The viewer
//! performs the actions and reports their outcomes back.
use vstd::prelude::*;
use crate::text::{decimal, push_decimal};

verus! {

/// Decimal numeral of a signed number.
pub open spec fn signed_decimal(v: int) -> Seq<char> {
    if v < 0 {
        seq!['-'] + decimal((-v) as nat)
    } else {
        decimal(v as nat)
    }
}

/// Appends the decimal numeral of a signed number.
pub fn push_signed(s: &mut String, v: i32)
    ensures
        final(s)@ == old(s)@ + signed_decimal(v as int),
{
    if v < 0 {
        s.append("-");
        push_decimal(s, (-(v as i64)) as u64);
        proof {
            reveal_strlit("-");
            assert(final(s)@ =~= old(s)@ + signed_decimal(v as int));
        }
    } else {
        push_decimal(s, v as u64);
    }
}

/// The views of a list of strings.
pub open spec fn strings_view(l: Seq<String>) -> Seq<Seq<char>> {
    l.map_values(|s: String| s@)
}

/// The text of the result of the solver.
pub open spec fn solve_line(solve: Option<(i32, i32)>) -> Seq<char> {
    match solve {
        Some((a, b)) => "R\u{e9}sultat Solve : valeur_a = "@ + signed_decimal(a as int) + ", valeur_b = "@
            + signed_decimal(b as int) + "\n"@,
        None => "R\u{e9}sultat Solve : (aucun)\n"@,
    }
}

/// The saved report: the image, its position in the list, the result of
/// the solver and the user's note when there is one.
pub open spec fn save_content(
    index: int,
    liste: Seq<Seq<char>>,
    solve: Option<(i32, i32)>,
    user_text: Seq<char>,
) -> Seq<char> {
    "Image : "@ + liste[index] + "\n"@ + "Index : "@ + decimal((index + 1) as nat) + " / "@ + decimal(
        liste.len(),
    ) + "\n"@ + solve_line(solve) + if user_text.len() > 0 {
        "Note utilisateur : "@ + user_text + "\n"@
    } else {
        Seq::empty()
    }
}

/// Builds the report that the viewer saves for the image at `index`.
pub fn build_save_content(
    index: usize,
    liste: &[String],
    solve: &Option<(i32, i32)>,
    user_text: &str,
) -> (out: String)
    requires
        index < liste@.len(),
    ensures
        out@ == save_content(index as int, strings_view(liste@), *solve, user_text@),
{
    let mut out = String::new();
    let ghost sl = solve_line(*solve);
    out.append("Image : ");
    out.append(liste[index].as_str());
    out.append("\n");
    out.append("Index : ");
    push_decimal(&mut out, (index + 1) as u64);
    out.append(" / ");
    push_decimal(&mut out, liste.len() as u64);
    out.append("\n");
    let ghost before_solve = out@;
    match solve {
        Some((a, b)) => {
            out.append("R\u{e9}sultat Solve : valeur_a = ");
            push_signed(&mut out, *a);
            out.append(", valeur_b = ");
            push_signed(&mut out, *b);
            out.append("\n");
        },
        None => {
            out.append("R\u{e9}sultat Solve : (aucun)\n");
        },
    }
    let ghost head = out@;
    if !user_text.is_empty() {
        out.append("Note utilisateur : ");
        out.append(user_text);
        out.append("\n");
    }
    proof {
        assert(head =~= before_solve + sl);
        assert(strings_view(liste@)[index as int] == liste@[index as int]@);
        assert(out@ =~= save_content(index as int, strings_view(liste@), *solve, user_text@));
    }
    out
}


/// The image after `i` in a list of `len` images, the first after the last.
pub open spec fn next_index(i: int, len: int) -> int {
    (i + 1) % len
}

/// The image before `i` in a list of `len` images, the last before the first.
pub open spec fn previous_index(i: int, len: int) -> int {
    if i == 0 {
        len - 1
    } else {
        i - 1
    }
}

/// Stepping forward then back, or back then forward, shows the same image.
pub proof fn law_navigation_round_trip(i: int, len: int)
    requires
        0 <= i < len,
    ensures
        previous_index(next_index(i, len), len) == i,
        next_index(previous_index(i, len), len) == i,
        0 <= next_index(i, len) < len,
        0 <= previous_index(i, len) < len,
{
    if i + 1 < len {
        assert((i + 1) % len == i + 1) by (nonlinear_arith)
            requires
                0 <= i + 1 < len,
        ;
    } else {
        assert((i + 1) % len == 0) by (nonlinear_arith)
            requires
                i + 1 == len,
                len > 0,
        ;
    }
    if i == 0 {
        assert((len - 1 + 1) % len == 0) by (nonlinear_arith)
            requires
                len > 0,
        ;
    } else {
        assert((i - 1 + 1) % len == i) by (nonlinear_arith)
            requires
                0 <= i < len,
        ;
    }
}

/// The next image is the one after the current one, and the first after
/// the last; the previous image is the one before the current one, and the
/// last before the first.
pub proof fn law_navigation_steps(i: int, len: int)
    requires
        0 <= i < len,
    ensures
        i + 1 < len ==> next_index(i, len) == i + 1,
        i + 1 == len ==> next_index(i, len) == 0,
        i > 0 ==> previous_index(i, len) == i - 1,
        i == 0 ==> previous_index(i, len) == len - 1,
{
    if i + 1 < len {
        assert((i + 1) % len == i + 1) by (nonlinear_arith)
            requires
                0 <= i + 1 < len,
        ;
    } else {
        assert((i + 1) % len == 0) by (nonlinear_arith)
            requires
                i + 1 == len,
                len > 0,
        ;
    }
}

/// `t` with every `/` turned into `_`.
pub open spec fn slashes_to_underscores(t: Seq<char>) -> Seq<char> {
    t.map_values(|c: char| if c == '/' { '_' } else { c })
}

/// `t` with every occurrence of `pat` removed, scanning from the left as
/// `str::replace(pat, "")` does.
pub open spec fn remove_all(t: Seq<char>, pat: Seq<char>) -> Seq<char>
    decreases t.len(),
{
    if t.len() == 0 {
        t
    } else if pat.len() > 0 && t.len() >= pat.len() && t.take(pat.len() as int) == pat {
        remove_all(t.skip(pat.len() as int), pat)
    } else {
        seq![t[0]] + remove_all(t.skip(1), pat)
    }
}

/// Name of the file in which the report on image `name` is saved.
pub open spec fn save_path(name: Seq<char>) -> Seq<char> {
    "result_"@ + remove_all(slashes_to_underscores(name), seq!['.', 'p', 'n', 'g']) + ".txt"@
}

/// Builds the name of the report file of an image: `result_`, the image's
/// path with `/` turned into `_` and `.png` removed, then `.txt`.
pub fn build_save_path(name: &str) -> (out: String)
    ensures
        out@ == save_path(name@),
{
    let chars = crate::text::chars_of(name);
    let ghost pat = seq!['.', 'p', 'n', 'g'];
    let ghost m = slashes_to_underscores(name@);
    let mut out = String::new();
    out.append("result_");
    let ghost head = out@;
    let n = chars.len();
    let mut i: usize = 0;
    proof {
        assert(m.skip(0) =~= m);
    }
    while i < n
        invariant
            i <= n,
            n == chars@.len(),
            chars@ == name@,
            m == slashes_to_underscores(name@),
            pat == seq!['.', 'p', 'n', 'g'],
            out@ + remove_all(m.skip(i as int), pat) == head + remove_all(m, pat),
        decreases n - i,
    {
        let ghost rest = m.skip(i as int);
        if n - i >= 4 && chars[i] == '.' && chars[i + 1] == 'p' && chars[i + 2] == 'n' && chars[i + 3] == 'g' {
            proof {
                assert(rest.take(4) =~= pat);
                assert(rest.skip(4) =~= m.skip(i + 4));
            }
            i = i + 4;
        } else {
            let c = if chars[i] == '/' { '_' } else { chars[i] };
            proof {
                if rest.len() >= 4 && rest.take(4) == pat {
                    assert(rest.take(4)[0] == '.' && rest.take(4)[1] == 'p');
                    assert(rest.take(4)[2] == 'n' && rest.take(4)[3] == 'g');
                }
                assert(rest[0] == c);
                assert(rest.skip(1) =~= m.skip(i + 1));
            }
            let piece = if c == '_' { "_" } else { name.substring_char(i, i + 1) };
            proof {
                reveal_strlit("_");
                if c != '_' {
                    assert(piece@ =~= seq![c]);
                }
                assert(piece@ =~= seq![c]);
            }
            let ghost before = out@;
            out.append(piece);
            proof {
                assert(before + remove_all(rest, pat) =~= out@ + remove_all(m.skip(i + 1), pat));
            }
            i = i + 1;
        }
    }
    out.append(".txt");
    proof {
        assert(m.skip(n as int).len() == 0);
        assert(out@ =~= save_path(name@));
    }
    out
}


/// A reply of the worker.
#[derive(Debug)]
pub enum WorkerResponse {
    /// The boxes of the digits that were found.
    FindDone(Vec<(usize, usize, usize, usize)>),
    /// An image was loaded: its binary matrix, the path of the image that
    /// was chosen, and the path of the saved binary image.
    LoadDone(Vec<Vec<u32>>, String, String),
    /// The signed and unsigned values of the binary word.
    SolveDone(i32, i32),
    /// What went wrong.
    Error(String),
}

/// What the user did, or what the worker replied.
#[derive(Debug)]
pub enum Message {
    Previous,
    Next,
    Find,
    Load,
    Save,
    Solve,
    WorkerReply(WorkerResponse),
    /// The user typed a new note.
    TextInputChanged(String),
}

/// What the viewer has to do after an update.
#[derive(Debug)]
pub enum ViewerAction {
    /// Nothing.
    Nothing,
    /// Ask the worker for the boxes of the digits of the image.
    Find { image_path: String },
    /// Ask the worker to load an image chosen by the user.
    Load,
    /// Ask the worker for the values of the binary word of the image.
    Solve { image_path: String },
    /// Write `content` to the file `path`, then report with `save_finished`.
    Save { path: String, content: String },
    /// Read the size of the image at `image_path` (report it with
    /// `image_measured`), then listen to the worker again.
    MeasureAndListen { image_path: String },
    /// Listen to the worker again.
    Listen,
}

/// The state of the viewer.
pub struct ViewerState {
    pub current_index: usize,
    pub liste_images: Vec<String>,
    pub bounding_boxes: Vec<(usize, usize, usize, usize)>,
    pub loaded_image_path: Option<String>,
    pub solve_result: Option<(i32, i32)>,
    pub status_text: String,
    pub user_text: String,
    pub image_size: (u32, u32),
}

/// Whether `x` is in the list of strings.
fn contains_string(l: &Vec<String>, x: &String) -> (b: bool)
    ensures
        b == strings_view(l@).contains(x@),
{
    let mut i: usize = 0;
    while i < l.len()
        invariant
            i <= l@.len(),
            forall|j: int| 0 <= j < i ==> l@[j]@ != x@,
        decreases l@.len() - i,
    {
        if l[i] == *x {
            proof {
                assert(strings_view(l@)[i as int] == x@);
            }
            return true;
        }
        i = i + 1;
    }
    proof {
        if strings_view(l@).contains(x@) {
            let j = choose|j: int| 0 <= j < strings_view(l@).len() && strings_view(l@)[j] == x@;
            assert(l@[j]@ == x@);
        }
    }
    false
}

/// First position of `x` in the list.
fn position_of(l: &Vec<String>, x: &String) -> (r: Option<usize>)
    ensures
        r matches Some(p) ==> p < l@.len() && l@[p as int]@ == x@ && forall|j: int| 0 <= j < p ==> l@[j]@ != x@,
        r is None ==> !strings_view(l@).contains(x@),
{
    let mut i: usize = 0;
    while i < l.len()
        invariant
            i <= l@.len(),
            forall|j: int| 0 <= j < i ==> l@[j]@ != x@,
        decreases l@.len() - i,
    {
        if l[i] == *x {
            return Some(i);
        }
        i = i + 1;
    }
    proof {
        if strings_view(l@).contains(x@) {
            let j = choose|j: int| 0 <= j < strings_view(l@).len() && strings_view(l@)[j] == x@;
            assert(l@[j]@ == x@);
        }
    }
    None
}

/// `l` with `x` added at the end unless it is already there.
pub open spec fn add_missing(l: Seq<Seq<char>>, x: Seq<char>) -> Seq<Seq<char>> {
    if l.contains(x) {
        l
    } else {
        l.push(x)
    }
}

/// Text of the status line after a search.
pub open spec fn find_status(n: nat) -> Seq<char> {
    "Find : "@ + decimal(n) + " rectangle(s) d\u{e9}tect\u{e9}(s)"@
}

/// Text of the status line after the solver.
pub open spec fn solve_status(a: i32, b: i32) -> Seq<char> {
    "R\u{e9}sultat Solve : valeur_a = "@ + signed_decimal(a as int) + ", valeur_b = "@ + signed_decimal(
        b as int,
    )
}

/// Sentence that explains the values of the binary word.
pub open spec fn solve_sentence(a: i32, b: i32) -> Seq<char> {
    "la valeur d\u{e9}cimal du mot binaire dans le cas d'un entier sign\u{e9} est "@ + signed_decimal(
        a as int,
    ) + " et dans le cas contraire "@ + signed_decimal(b as int)
}

impl ViewerState {
    /// The list of images is not empty and the current index lies in it.
    pub open spec fn wf(&self) -> bool {
        self.liste_images@.len() > 0 && self.current_index < self.liste_images@.len()
    }

    /// The path of the image on screen: the loaded image, else the current
    /// one of the list.
    pub open spec fn shown_path(&self) -> Seq<char> {
        match self.loaded_image_path {
            Some(p) => p@,
            None => self.liste_images@[self.current_index as int]@,
        }
    }

    /// `next` shows image `index` with no box, no loaded image, no note and
    /// no status, and keeps the rest of `self`.
    pub open spec fn is_navigation_to(&self, next: &Self, index: int) -> bool {
        &&& next.current_index == index
        &&& next.liste_images@ == self.liste_images@
        &&& next.bounding_boxes@.len() == 0
        &&& next.loaded_image_path is None
        &&& next.user_text@.len() == 0
        &&& next.status_text@.len() == 0
        &&& next.solve_result == self.solve_result
        &&& next.image_size == self.image_size
    }

    /// `next` differs from `self` by its status line at most.
    pub open spec fn same_but_status(&self, next: &Self) -> bool {
        &&& next.current_index == self.current_index
        &&& next.liste_images@ == self.liste_images@
        &&& next.bounding_boxes@ == self.bounding_boxes@
        &&& next.loaded_image_path == self.loaded_image_path
        &&& next.user_text@ == self.user_text@
        &&& next.solve_result == self.solve_result
        &&& next.image_size == self.image_size
    }

    /// The viewer on its first images, at the first one.
    pub fn new(images: Vec<String>) -> (s: Self)
        requires
            images@.len() > 0,
        ensures
            s.wf(),
            s.current_index == 0,
            s.liste_images@ == images@,
            s.bounding_boxes@.len() == 0,
            s.loaded_image_path is None,
            s.solve_result is None,
            s.status_text@.len() == 0,
            s.user_text@.len() == 0,
            s.image_size == (0u32, 0u32),
    {
        ViewerState {
            current_index: 0,
            liste_images: images,
            bounding_boxes: Vec::new(),
            loaded_image_path: None,
            solve_result: None,
            status_text: String::new(),
            user_text: String::new(),
            image_size: (0, 0),
        }
    }

    fn show(&mut self, index: usize)
        requires
            index < old(self).liste_images@.len(),
        ensures
            old(self).is_navigation_to(final(self), index as int),
    {
        self.current_index = index;
        self.bounding_boxes = Vec::new();
        self.loaded_image_path = None;
        self.user_text = String::new();
        self.status_text = String::new();
    }

    /// Shows the previous image, the last one before the first.
    pub fn previous(&mut self)
        requires
            old(self).wf(),
        ensures
            final(self).wf(),
            old(self).is_navigation_to(
                final(self),
                previous_index(old(self).current_index as int, old(self).liste_images@.len() as int),
            ),
    {
        let index = if self.current_index == 0 {
            self.liste_images.len() - 1
        } else {
            self.current_index - 1
        };
        self.show(index);
    }

    /// Shows the next image, the first one after the last.
    pub fn next(&mut self)
        requires
            old(self).wf(),
        ensures
            final(self).wf(),
            old(self).is_navigation_to(
                final(self),
                next_index(old(self).current_index as int, old(self).liste_images@.len() as int),
            ),
    {
        let len = self.liste_images.len();
        let index = (self.current_index + 1) % len;
        self.show(index);
    }

    /// Announces the search and asks the worker for the boxes of the
    /// digits of the current image.
    pub fn find(&mut self) -> (a: ViewerAction)
        requires
            old(self).wf(),
        ensures
            final(self).wf(),
            old(self).same_but_status(final(self)),
            final(self).status_text@ == "Recherche en cours\u{2026}"@,
            a matches ViewerAction::Find { image_path } && image_path@
                == old(self).liste_images@[old(self).current_index as int]@,
    {
        self.status_text = String::from_str("Recherche en cours\u{2026}");
        let path = self.liste_images[self.current_index].clone();
        ViewerAction::Find { image_path: path }
    }

    /// Announces the loading and asks the worker to load an image.
    pub fn load(&mut self) -> (a: ViewerAction)
        requires
            old(self).wf(),
        ensures
            final(self).wf(),
            old(self).same_but_status(final(self)),
            final(self).status_text@ == "Chargement en cours\u{2026}"@,
            a matches ViewerAction::Load,
    {
        self.status_text = String::from_str("Chargement en cours\u{2026}");
        ViewerAction::Load
    }

    /// Announces the solving and asks the worker for the values of the
    /// binary word of the current image.
    pub fn solve(&mut self) -> (a: ViewerAction)
        requires
            old(self).wf(),
        ensures
            final(self).wf(),
            old(self).same_but_status(final(self)),
            final(self).status_text@ == "R\u{e9}solution en cours\u{2026}"@,
            a matches ViewerAction::Solve { image_path } && image_path@
                == old(self).liste_images@[old(self).current_index as int]@,
    {
        self.status_text = String::from_str("R\u{e9}solution en cours\u{2026}");
        let path = self.liste_images[self.current_index].clone();
        ViewerAction::Solve { image_path: path }
    }

    /// Prepares the report on the current image and the name of its file.
    pub fn save(&self) -> (a: ViewerAction)
        requires
            self.wf(),
        ensures
            a matches ViewerAction::Save { path, content } && path@ == save_path(
                self.liste_images@[self.current_index as int]@,
            ) && content@ == save_content(
                self.current_index as int,
                strings_view(self.liste_images@),
                self.solve_result,
                self.user_text@,
            ),
    {
        let content = build_save_content(
            self.current_index,
            self.liste_images.as_slice(),
            &self.solve_result,
            self.user_text.as_str(),
        );
        let path = build_save_path(self.liste_images[self.current_index].as_str());
        ViewerAction::Save { path, content }
    }

    /// Reports on the writing of the report file.
    pub fn save_finished(&mut self, path: &str, outcome: Result<(), String>)
        requires
            old(self).wf(),
        ensures
            final(self).wf(),
            old(self).same_but_status(final(self)),
            final(self).status_text@ == match outcome {
                Ok(()) => "Sauvegard\u{e9} : "@ + path@,
                Err(e) => "Erreur sauvegarde : "@ + e@,
            },
    {
        let mut status = String::new();
        match outcome {
            Ok(()) => {
                status.append("Sauvegard\u{e9} : ");
                status.append(path);
            },
            Err(e) => {
                status.append("Erreur sauvegarde : ");
                status.append(e.as_str());
            },
        }
        self.status_text = status;
    }

    /// Records the size of the image on screen.
    pub fn image_measured(&mut self, width: u32, height: u32)
        requires
            old(self).wf(),
        ensures
            final(self).wf(),
            final(self).image_size == (width, height),
            final(self).current_index == old(self).current_index,
            final(self).liste_images@ == old(self).liste_images@,
            final(self).bounding_boxes@ == old(self).bounding_boxes@,
            final(self).loaded_image_path == old(self).loaded_image_path,
            final(self).solve_result == old(self).solve_result,
            final(self).status_text@ == old(self).status_text@,
            final(self).user_text@ == old(self).user_text@,
    {
        self.image_size = (width, height);
    }

    /// Replaces the note with the text the user typed.
    pub fn text_changed(&mut self, text: String)
        requires
            old(self).wf(),
        ensures
            final(self).wf(),
            final(self).user_text@ == text@,
            final(self).current_index == old(self).current_index,
            final(self).liste_images@ == old(self).liste_images@,
            final(self).bounding_boxes@ == old(self).bounding_boxes@,
            final(self).loaded_image_path == old(self).loaded_image_path,
            final(self).solve_result == old(self).solve_result,
            final(self).status_text@ == old(self).status_text@,
            final(self).image_size == old(self).image_size,
    {
        self.user_text = text;
    }

    /// Takes in a reply of the worker.
    pub fn worker_reply(&mut self, response: WorkerResponse) -> (a: ViewerAction)
        requires
            old(self).wf(),
        ensures
            final(self).wf(),
            match response {
                WorkerResponse::FindDone(boxes) => {
                    &&& final(self).status_text@ == find_status(boxes@.len())
                    &&& final(self).bounding_boxes@ == boxes@
                    &&& final(self).current_index == old(self).current_index
                    &&& final(self).liste_images@ == old(self).liste_images@
                    &&& final(self).loaded_image_path == old(self).loaded_image_path
                    &&& final(self).user_text@ == old(self).user_text@
                    &&& final(self).solve_result == old(self).solve_result
                    &&& final(self).image_size == old(self).image_size
                    &&& a matches ViewerAction::MeasureAndListen { image_path } && image_path@
                        == old(self).shown_path()
                },
                WorkerResponse::LoadDone(_, orig, fin) => {
                    let l = add_missing(add_missing(strings_view(old(self).liste_images@), orig@), fin@);
                    &&& final(self).status_text@ == "Charg\u{e9} avec succ\u{e8}s !"@
                    &&& strings_view(final(self).liste_images@) == l
                    &&& final(self).loaded_image_path matches Some(p) && p@ == fin@
                    &&& final(self).liste_images@[final(self).current_index as int]@ == fin@
                    &&& forall|j: int| 0 <= j < final(self).current_index ==> l[j] != fin@
                    &&& final(self).bounding_boxes@ == old(self).bounding_boxes@
                    &&& final(self).user_text@ == old(self).user_text@
                    &&& final(self).solve_result == old(self).solve_result
                    &&& final(self).image_size == old(self).image_size
                    &&& a matches ViewerAction::Listen
                },
                WorkerResponse::SolveDone(x, y) => {
                    &&& final(self).solve_result == Some((x, y))
                    &&& final(self).status_text@ == solve_status(x, y)
                    &&& final(self).user_text@ == solve_sentence(x, y)
                    &&& final(self).current_index == old(self).current_index
                    &&& final(self).liste_images@ == old(self).liste_images@
                    &&& final(self).bounding_boxes@ == old(self).bounding_boxes@
                    &&& final(self).loaded_image_path == old(self).loaded_image_path
                    &&& final(self).image_size == old(self).image_size
                    &&& a matches ViewerAction::Listen
                },
                WorkerResponse::Error(e) => {
                    &&& old(self).same_but_status(final(self))
                    &&& final(self).status_text@ == "Erreur : "@ + e@
                    &&& a matches ViewerAction::Listen
                },
            },
    {
        match response {
            WorkerResponse::FindDone(boxes) => {
                let mut status = String::new();
                status.append("Find : ");
                push_decimal(&mut status, boxes.len() as u64);
                status.append(" rectangle(s) d\u{e9}tect\u{e9}(s)");
                self.status_text = status;
                self.bounding_boxes = boxes;
                let image_path = match &self.loaded_image_path {
                    Some(p) => p.clone(),
                    None => self.liste_images[self.current_index].clone(),
                };
                ViewerAction::MeasureAndListen { image_path }
            },
            WorkerResponse::LoadDone(_pixels, copied_orig_path, final_path) => {
                self.status_text = String::from_str("Charg\u{e9} avec succ\u{e8}s !");
                let ghost l0 = strings_view(self.liste_images@);
                if !contains_string(&self.liste_images, &copied_orig_path) {
                    self.liste_images.push(copied_orig_path.clone());
                    proof {
                        assert(strings_view(self.liste_images@) =~= l0.push(copied_orig_path@));
                    }
                }
                let ghost l1 = strings_view(self.liste_images@);
                if !contains_string(&self.liste_images, &final_path) {
                    self.liste_images.push(final_path.clone());
                    proof {
                        assert(strings_view(self.liste_images@) =~= l1.push(final_path@));
                    }
                }
                proof {
                    let l2 = strings_view(self.liste_images@);
                    assert(l2.contains(final_path@)) by {
                        if l1.contains(final_path@) {
                            let j = choose|j: int| 0 <= j < l1.len() && l1[j] == final_path@;
                            assert(l2[j] == final_path@);
                        } else {
                            assert(l2[l2.len() - 1] == final_path@);
                        }
                    }
                }
                let pos = position_of(&self.liste_images, &final_path);
                match pos {
                    Some(p) => {
                        self.current_index = p;
                    },
                    None => {},
                }
                self.loaded_image_path = Some(final_path);
                proof {
                    let l2 = strings_view(self.liste_images@);
                    assert forall|j: int| 0 <= j < self.current_index implies l2[j] != final_path@ by {
                        assert(l2[j] == self.liste_images@[j]@);
                    }
                }
                ViewerAction::Listen
            },
            WorkerResponse::SolveDone(x, y) => {
                self.solve_result = Some((x, y));
                let mut status = String::new();
                status.append("R\u{e9}sultat Solve : valeur_a = ");
                push_signed(&mut status, x);
                status.append(", valeur_b = ");
                push_signed(&mut status, y);
                self.status_text = status;
                let mut sentence = String::new();
                sentence.append(
                    "la valeur d\u{e9}cimal du mot binaire dans le cas d'un entier sign\u{e9} est ",
                );
                push_signed(&mut sentence, x);
                sentence.append(" et dans le cas contraire ");
                push_signed(&mut sentence, y);
                self.user_text = sentence;
                ViewerAction::Listen
            },
            WorkerResponse::Error(e) => {
                let mut status = String::new();
                status.append("Erreur : ");
                status.append(e.as_str());
                self.status_text = status;
                ViewerAction::Listen
            },
        }
    }
}

} // verus!
