//! Configuration files: where they are looked for, and the images that they name.
use crate::error::{AppError, AppResult, Failure};
use crate::image;
use crate::image::{validate_image_address, ImageFile};
use crate::text;
use crate::text::{cat, cat3, cat4, chars_of, contains, same, to_lower, trim};
use crate::walk;
use crate::walk::{lift, Halt, Op, Reply, Request, Stop, Trail, Walk};
use vstd::prelude::*;

verus! {

/// Where a configuration file can be.
#[derive(Debug, Clone, Copy, PartialEq, Eq, Structural)]
pub enum ConfigPlace {
    /// The path that was given.
    Explicit,
    /// The current directory.
    CurrentDirectory,
    /// The directory of the executable.
    BesideExecutable,
    /// Below the directory that `XDG_CONFIG_HOME` names.
    Xdg,
    /// Below the directory that `APPDATA` names.
    AppData,
    /// Below the directory that `HOME` names.
    Home,
}

/// The name of a configuration file.
pub const CONFIG_FILE: &'static str = "jog.toml";

/// What the environment says.
#[derive(Debug)]
pub struct Environment {
    pub xdg: Option<String>,
    pub home: Option<String>,
    pub appdata: Option<String>,
    /// Whether the system is Windows.
    pub windows: bool,
}

/// A file of an image as a configuration file gives it.
#[derive(Debug)]
pub struct RawPart {
    pub file: ImageFile,
    pub addr: Option<u64>,
    /// Whether the path is relative.
    pub relative: bool,
    /// The path below the directory of the configuration file.
    pub joined: String,
}

/// An image as a configuration file gives it.
#[derive(Debug)]
pub struct RawImage {
    pub name: String,
    pub description: Option<String>,
    pub parts: Vec<RawPart>,
}

/// The directories between the base of a place and the configuration file in it.
pub open spec fn directories_of(place: ConfigPlace) -> Seq<Seq<char>> {
    match place {
        ConfigPlace::Xdg => seq!["jog"@],
        ConfigPlace::AppData => seq!["jog"@],
        ConfigPlace::Home => seq![".config"@, "jog"@],
        _ => Seq::empty(),
    }
}

/// The directories between the base of a place and the configuration file in it.
pub fn config_directories(place: ConfigPlace) -> (names: Vec<String>)
    ensures
        text::views(names@) == directories_of(place),
{
    let mut names: Vec<String> = Vec::new();
    match place {
        ConfigPlace::Xdg | ConfigPlace::AppData => {
            names.push("jog".to_owned());
        },
        ConfigPlace::Home => {
            names.push(".config".to_owned());
            names.push("jog".to_owned());
        },
        _ => {},
    }
    assert(text::views(names@) =~= directories_of(place));
    names
}

/// Whether a variable is set to something.
pub open spec fn is_set(value: Option<String>) -> bool {
    value is Some && value->0@.len() > 0
}

/// Where a configuration file can be, the first place first.
pub open spec fn listed_places(explicit: bool, beside: bool, environment: Environment) -> Seq<
    ConfigPlace,
> {
    if explicit {
        seq![ConfigPlace::Explicit]
    } else {
        seq![ConfigPlace::CurrentDirectory] + (if beside {
            seq![ConfigPlace::BesideExecutable]
        } else {
            Seq::empty()
        }) + (if is_set(environment.xdg) {
            seq![ConfigPlace::Xdg]
        } else {
            Seq::empty()
        }) + (if environment.windows && is_set(environment.appdata) {
            seq![ConfigPlace::AppData]
        } else if !environment.windows && is_set(environment.home) {
            seq![ConfigPlace::Home]
        } else {
            Seq::empty()
        })
    }
}

/// Whether a variable is set to something.
fn has_value(value: &Option<String>) -> (result: bool)
    ensures
        result == is_set(*value),
{
    match value {
        Some(value) => !value.as_str().is_empty(),
        None => false,
    }
}

/// Lists where a configuration file can be. `beside` tells whether the executable lies in a
/// directory.
fn list_places(explicit: bool, beside: bool, environment: &Environment) -> (places: Vec<ConfigPlace>)
    ensures
        places@ == listed_places(explicit, beside, *environment),
{
    let mut places: Vec<ConfigPlace> = Vec::new();
    if explicit {
        places.push(ConfigPlace::Explicit);
        assert(places@ =~= listed_places(explicit, beside, *environment));
        return places;
    }
    places.push(ConfigPlace::CurrentDirectory);
    if beside {
        places.push(ConfigPlace::BesideExecutable);
    }
    if has_value(&environment.xdg) {
        places.push(ConfigPlace::Xdg);
    }
    if environment.windows {
        if has_value(&environment.appdata) {
            places.push(ConfigPlace::AppData);
        }
    } else if has_value(&environment.home) {
        places.push(ConfigPlace::Home);
    }
    assert(places@ =~= listed_places(explicit, beside, *environment));
    places
}

/// The first `n` places without those whose path is that of the place kept before them.
pub open spec fn distinct_places(t: Trail, places: Seq<ConfigPlace>, n: nat) -> (
    Trail,
    Result<Seq<ConfigPlace>, Halt>,
)
    decreases n,
{
    if n == 0 {
        (t, Ok(Seq::empty()))
    } else {
        match distinct_places(t, places, (n - 1) as nat) {
            (u, Err(halt)) => (u, Err(halt)),
            (u, Ok(kept)) => if kept.len() == 0 {
                (u, Ok(kept.push(places[n - 1])))
            } else {
                match walk::ask_flag(u, Request::SamePath(kept.last(), places[n - 1])) {
                    (v, Err(halt)) => (v, Err(halt)),
                    (v, Ok(true)) => (v, Ok(kept)),
                    (v, Ok(false)) => (v, Ok(kept.push(places[n - 1]))),
                }
            },
        }
    }
}

/// The first failure decides.
proof fn lemma_indistinct_stays(t: Trail, places: Seq<ConfigPlace>, n: nat, m: nat)
    requires
        n <= m,
        distinct_places(t, places, n).1 is Err,
    ensures
        distinct_places(t, places, m) == distinct_places(t, places, n),
    decreases m,
{
    if n < m {
        lemma_indistinct_stays(t, places, n, (m - 1) as nat);
    }
}

/// Leaves out places whose path repeats that of the place before them.
fn drop_repeated(walk: &mut Walk, places: &Vec<ConfigPlace>) -> (distinct: Result<
    Vec<ConfigPlace>,
    Stop,
>)
    ensures
        (final(walk)@, walk::seen(distinct)) == distinct_places(
            old(walk)@,
            places@,
            places@.len(),
        ),
{
    let mut kept: Vec<ConfigPlace> = Vec::new();
    let mut i: usize = 0;
    assert(kept@ =~= Seq::<ConfigPlace>::empty());
    while i < places.len()
        invariant
            i <= places@.len(),
            distinct_places(old(walk)@, places@, i as nat) == (
                walk@,
                Ok::<Seq<ConfigPlace>, Halt>(kept@),
            ),
        decreases places@.len() - i,
    {
        let place = places[i];
        let len: usize = kept.len();
        let repeated = if len == 0 {
            false
        } else {
            match walk.flag(Op::SamePath(kept[len - 1], place)) {
                Ok(same) => same,
                Err(stop) => {
                    proof {
                        lemma_indistinct_stays(
                            old(walk)@,
                            places@,
                            (i + 1) as nat,
                            places@.len(),
                        );
                    }
                    return Err(stop);
                },
            }
        };
        if !repeated {
            kept.push(place);
        }
        i += 1;
    }
    Ok(kept)
}

/// Where the configuration file is looked for, the first place first. A path is not looked for
/// twice in a row.
pub open spec fn candidates(t: Trail, explicit: bool, beside: bool, environment: Environment) -> (
    Trail,
    Result<Seq<ConfigPlace>, Halt>,
) {
    let places = listed_places(explicit, beside, environment);
    distinct_places(t, places, places.len())
}

/// Finds where to look for the configuration file. `beside` tells whether the executable lies in a
/// directory.
pub fn config_candidates(
    walk: &mut Walk,
    explicit: bool,
    beside: bool,
    environment: &Environment,
) -> (places: Result<Vec<ConfigPlace>, Stop>)
    ensures
        (final(walk)@, walk::seen(places)) == candidates(
            old(walk)@,
            explicit,
            beside,
            *environment,
        ),
{
    let places = list_places(explicit, beside, environment);
    drop_repeated(walk, &places)
}

/// Whether a place was told to have the path of one that is kept.
pub open spec fn is_repeated(t: Trail, kept: Seq<ConfigPlace>, place: ConfigPlace) -> bool {
    exists|u: Trail, k: int|
        0 <= k < kept.len() && u.replies == t.replies && (#[trigger] walk::ask_flag(
            u,
            Request::SamePath(#[trigger] kept[k], place),
        )).1 == Ok::<bool, Halt>(true)
}

/// Only repeated paths are left out: each place is kept, or was told to have the path of one that
/// is kept. The first place is always kept, and no place is added.
pub proof fn law_only_repeated_paths_are_left_out(t: Trail, places: Seq<ConfigPlace>, n: nat)
    requires
        n <= places.len(),
    ensures
        distinct_places(t, places, n).0.replies == t.replies,
        distinct_places(t, places, n).1 matches Ok(kept) ==> {
            &&& n > 0 ==> kept.len() > 0 && kept[0] == places[0]
            &&& forall|i: int|
                0 <= i < n ==> kept.contains(#[trigger] places[i]) || is_repeated(
                    t,
                    kept,
                    places[i],
                )
            &&& forall|k: int| 0 <= k < kept.len() ==> places.contains(#[trigger] kept[k])
        },
    decreases n,
{
    if n > 0 {
        law_only_repeated_paths_are_left_out(t, places, (n - 1) as nat);
        let place = places[n - 1];
        if let (u, Ok(front)) = distinct_places(t, places, (n - 1) as nat) {
            if let Ok(kept) = distinct_places(t, places, n).1 {
                assert(places.contains(place));
                if kept == front {
                    assert(front.len() > 0);
                    let last = front.len() - 1;
                    assert(walk::ask_flag(u, Request::SamePath(front[last], place)).1 == Ok::<
                        bool,
                        Halt,
                    >(true));
                    assert(is_repeated(t, kept, place));
                } else {
                    assert(kept == front.push(place));
                    assert(kept[front.len() as int] == place);
                }
                assert forall|i: int| 0 <= i < n implies kept.contains(#[trigger] places[i])
                    || is_repeated(t, kept, places[i]) by {
                    if i < n - 1 {
                        if front.contains(places[i]) {
                            let k = choose|k: int| 0 <= k < front.len() && front[k] == places[i];
                            assert(kept[k] == places[i]);
                        } else {
                            assert(is_repeated(t, front, places[i]));
                            let (w, k) = choose|w: Trail, k: int|
                                0 <= k < front.len() && w.replies == t.replies && (
                                #[trigger] walk::ask_flag(
                                    w,
                                    Request::SamePath(#[trigger] front[k], places[i]),
                                )).1 == Ok::<bool, Halt>(true);
                            assert(kept[k] == front[k]);
                            assert(walk::ask_flag(w, Request::SamePath(kept[k], places[i])).1
                                == Ok::<bool, Halt>(true));
                        }
                    }
                }
                assert forall|k: int| 0 <= k < kept.len() implies places.contains(
                    #[trigger] kept[k],
                ) by {
                    if k < front.len() {
                        assert(kept[k] == front[k]);
                    }
                }
            }
        }
    }
}

/// The place of the user's own configuration.
pub open spec fn user_place(environment: Environment) -> Result<ConfigPlace, Failure> {
    if is_set(environment.xdg) {
        Ok(ConfigPlace::Xdg)
    } else if environment.windows && is_set(environment.appdata) {
        Ok(ConfigPlace::AppData)
    } else if !environment.windows && is_set(environment.home) {
        Ok(ConfigPlace::Home)
    } else {
        Err(Failure::Usage("cannot locate the user configuration directory"@))
    }
}

/// Finds the place of the user's own configuration.
pub fn config_directory(environment: &Environment) -> (place: AppResult<ConfigPlace>)
    ensures
        crate::error::agrees(place, user_place(*environment)),
{
    if has_value(&environment.xdg) {
        return Ok(ConfigPlace::Xdg);
    }
    if environment.windows {
        if has_value(&environment.appdata) {
            return Ok(ConfigPlace::AppData);
        }
    } else if has_value(&environment.home) {
        return Ok(ConfigPlace::Home);
    }
    Err(AppError::Usage("cannot locate the user configuration directory".to_owned()))
}

/// The user's own configuration file, where there is a place for one, is listed after those in the
/// current directory and beside the executable.
pub proof fn law_user_configuration_is_a_candidate(beside: bool, environment: Environment)
    ensures
        user_place(environment) matches Ok(place) ==> listed_places(
            false,
            beside,
            environment,
        ).contains(place),
        listed_places(false, beside, environment)[0] == ConfigPlace::CurrentDirectory,
        beside ==> listed_places(false, beside, environment)[1] == ConfigPlace::BesideExecutable,
{
    let places = listed_places(false, beside, environment);
    let at = if beside {
        2int
    } else {
        1int
    };
    if user_place(environment) is Ok {
        assert(places[at] == user_place(environment)->Ok_0);
    }
}

/// The order of names: by the first character in which they differ, and a name before all that it
/// starts.
pub open spec fn before(a: Seq<char>, b: Seq<char>) -> bool
    decreases a.len(),
{
    if b.len() == 0 {
        false
    } else if a.len() == 0 {
        true
    } else {
        (a[0] as u32) < (b[0] as u32) || (a[0] == b[0] && before(a.skip(1), b.skip(1)))
    }
}

/// Whether a name stands before another.
fn precedes(a: &str, b: &str) -> (result: bool)
    ensures
        result == before(a@, b@),
{
    let x = chars_of(a);
    let y = chars_of(b);
    let mut i: usize = 0;
    assert(x@.skip(0) =~= x@ && y@.skip(0) =~= y@);
    loop
        invariant
            x@ == a@,
            y@ == b@,
            i <= x@.len(),
            i <= y@.len(),
            before(a@, b@) == before(x@.skip(i as int), y@.skip(i as int)),
        decreases x@.len() - i,
    {
        if i == y.len() {
            return false;
        }
        if i == x.len() {
            return true;
        }
        if x[i] != y[i] {
            return (x[i] as u32) < (y[i] as u32);
        }
        proof {
            assert(x@.skip(i as int).skip(1) =~= x@.skip(i + 1));
            assert(y@.skip(i as int).skip(1) =~= y@.skip(i + 1));
        }
        i += 1;
    }
}

/// Where an image with this name belongs in a list that is ordered by name.
pub open spec fn slot(images: Seq<RawImage>, name: Seq<char>) -> int
    decreases images.len(),
{
    if images.len() == 0 {
        0
    } else if before(images.last().name@, name) {
        images.len() as int
    } else {
        slot(images.drop_last(), name)
    }
}

/// A list that is ordered by name with one image more, which takes the place of one of its name.
pub open spec fn with_image(images: Seq<RawImage>, image: RawImage) -> Seq<RawImage> {
    let at = slot(images, image.name@);
    if at < images.len() && images[at].name@ == image.name@ {
        images.update(at, image)
    } else {
        images.insert(at, image)
    }
}

/// Images in the order of their names.
pub open spec fn by_name(images: Seq<RawImage>) -> Seq<RawImage>
    decreases images.len(),
{
    if images.len() == 0 {
        Seq::empty()
    } else {
        with_image(by_name(images.drop_last()), images.last())
    }
}

/// The images that some references point to.
pub open spec fn pointed(images: Seq<&RawImage>) -> Seq<RawImage> {
    images.map_values(|image: &RawImage| *image)
}

/// A slot is a position.
proof fn lemma_slot(images: Seq<RawImage>, name: Seq<char>)
    ensures
        0 <= slot(images, name) <= images.len(),
        slot(images, name) > 0 ==> before(images[slot(images, name) - 1].name@, name),
        forall|i: int|
            slot(images, name) <= i < images.len() ==> !before((#[trigger] images[i]).name@, name),
    decreases images.len(),
{
    if images.len() > 0 && !before(images.last().name@, name) {
        lemma_slot(images.drop_last(), name);
        let at = slot(images, name);
        assert forall|i: int| at <= i < images.len() implies !before(
            (#[trigger] images[i]).name@,
            name,
        ) by {
            if i < images.len() - 1 {
                assert(images.drop_last()[i] == images[i]);
            }
        }
    }
}

/// Finds where an image belongs.
fn find_slot<'a>(images: &Vec<&'a RawImage>, name: &str) -> (at: usize)
    ensures
        at == slot(pointed(images@), name@),
{
    let mut at: usize = images.len();
    let ghost all = pointed(images@);
    assert(all.take(at as int) =~= all);
    while at > 0
        invariant
            at <= images@.len(),
            all == pointed(images@),
            slot(all, name@) == slot(all.take(at as int), name@),
        decreases at,
    {
        assert(all.take(at as int).last() == *images@[at - 1]);
        if precedes(images[at - 1].name.as_str(), name) {
            return at;
        }
        assert(all.take(at as int).drop_last() =~= all.take(at - 1));
        at -= 1;
    }
    at
}

/// Puts images in the order of their names.
fn sort_by_name<'a>(images: &'a Vec<RawImage>) -> (sorted: Vec<&'a RawImage>)
    ensures
        pointed(sorted@) == by_name(images@),
{
    let mut sorted: Vec<&'a RawImage> = Vec::new();
    let mut i: usize = 0;
    assert(pointed(sorted@) =~= by_name(images@.take(0)));
    while i < images.len()
        invariant
            i <= images@.len(),
            pointed(sorted@) == by_name(images@.take(i as int)),
        decreases images@.len() - i,
    {
        let image = &images[i];
        let at: usize = find_slot(&sorted, image.name.as_str());
        let ghost before_it = sorted@;
        proof {
            lemma_slot(pointed(sorted@), image.name@);
            assert(images@.take(i + 1).drop_last() =~= images@.take(i as int));
        }
        if at < sorted.len() && same(sorted[at].name.as_str(), image.name.as_str()) {
            sorted.set(at, image);
            assert(pointed(sorted@) =~= pointed(before_it).update(at as int, *image));
        } else {
            sorted.insert(at, image);
            assert(pointed(sorted@) =~= pointed(before_it).insert(at as int, *image));
        }
        i += 1;
    }
    assert(images@.take(i as int) =~= images@);
    sorted
}

/// A character is its number.
proof fn lemma_char(a: char, b: char)
    requires
        a as u32 == b as u32,
    ensures
        a == b,
{
}

/// The order of names is strict.
proof fn lemma_before_is_strict(a: Seq<char>, b: Seq<char>)
    ensures
        !(before(a, b) && before(b, a)),
        before(a, b) ==> a != b,
        !before(a, b) && !before(b, a) ==> a == b,
    decreases a.len(),
{
    if a.len() > 0 && b.len() > 0 {
        lemma_before_is_strict(a.skip(1), b.skip(1));
        if !before(a, b) && !before(b, a) {
            lemma_char(a[0], b[0]);
            assert(a =~= seq![a[0]] + a.skip(1));
            assert(b =~= seq![b[0]] + b.skip(1));
        }
    } else if a.len() == 0 && b.len() == 0 {
        assert(a =~= b);
    }
}

/// The order of names is transitive.
proof fn lemma_before_is_transitive(a: Seq<char>, b: Seq<char>, c: Seq<char>)
    requires
        before(a, b),
        before(b, c),
    ensures
        before(a, c),
    decreases a.len(),
{
    if a.len() > 0 && a[0] == b[0] && b[0] == c[0] {
        lemma_before_is_transitive(a.skip(1), b.skip(1), c.skip(1));
    }
}

/// Whether images stand in the order of their names, no name twice.
pub open spec fn is_by_name(images: Seq<RawImage>) -> bool {
    forall|i: int, j: int|
        0 <= i < j < images.len() ==> before((#[trigger] images[i]).name@, (#[trigger] images[j]).name@)
}

/// Whether an image is the one that a list gives for its name: the last of that name.
pub open spec fn is_last_of_its_name(images: Seq<RawImage>, i: int) -> bool {
    0 <= i < images.len() && forall|j: int|
        i < j < images.len() ==> (#[trigger] images[j]).name@ != images[i].name@
}

/// One image more keeps the order.
proof fn lemma_with_image(images: Seq<RawImage>, image: RawImage)
    requires
        is_by_name(images),
    ensures
        is_by_name(with_image(images, image)),
        forall|x: RawImage| #[trigger]
            with_image(images, image).contains(x) <==> x == image || (images.contains(x) && x.name@
                != image.name@),
{
    let name = image.name@;
    let at = slot(images, name);
    lemma_slot(images, name);
    let out = with_image(images, image);
    let replaced = at < images.len() && images[at].name@ == name;
    assert forall|i: int| 0 <= i < at implies before((#[trigger] images[i]).name@, name) by {
        if i < at - 1 {
            assert(before(images[i].name@, images[at - 1].name@));
            lemma_before_is_transitive(images[i].name@, images[at - 1].name@, name);
        }
    }
    assert forall|i: int| at <= i < images.len() && (replaced ==> i > at) implies before(
        name,
        (#[trigger] images[i]).name@,
    ) by {
        lemma_before_is_strict(name, images[i].name@);
        if images[i].name@ == name && i > at {
            assert(before(images[at].name@, images[i].name@));
        }
        if images[i].name@ == name && i == at {
            assert(replaced);
        }
    }
    let old_at = |i: int|
        if replaced || i < at {
            i
        } else {
            i - 1
        };
    assert forall|i: int| 0 <= i < out.len() && i != at implies out[i] == images[old_at(i)] by {}
    assert forall|i: int, j: int| 0 <= i < j < out.len() implies before(
        (#[trigger] out[i]).name@,
        (#[trigger] out[j]).name@,
    ) by {
        if i != at && j != at {
            assert(before(images[old_at(i)].name@, images[old_at(j)].name@));
        }
    }
    assert forall|x: RawImage| #[trigger] out.contains(x) <==> x == image || (images.contains(x)
        && x.name@ != name) by {
        if out.contains(x) && x != image {
            let i = choose|i: int| 0 <= i < out.len() && out[i] == x;
            assert(i != at);
            assert(images[old_at(i)] == x);
            lemma_before_is_strict(x.name@, name);
            lemma_before_is_strict(name, x.name@);
        }
        if x == image {
            assert(out[at] == image);
        }
        if images.contains(x) && x.name@ != name {
            let k = choose|k: int| 0 <= k < images.len() && images[k] == x;
            let i = if replaced || k < at {
                k
            } else {
                k + 1
            };
            assert(out[i] == x);
        }
    }
}

/// The images of a configuration stand in the order of their names, no name twice, and each is the
/// last that was given under its name.
pub proof fn law_images_are_ordered_by_name(images: Seq<RawImage>)
    ensures
        is_by_name(by_name(images)),
        forall|x: RawImage| #[trigger]
            by_name(images).contains(x) <==> exists|i: int|
                is_last_of_its_name(images, i) && images[i] == x,
    decreases images.len(),
{
    if images.len() > 0 {
        let front = images.drop_last();
        let last = images.last();
        law_images_are_ordered_by_name(front);
        lemma_with_image(by_name(front), last);
        assert forall|x: RawImage| #[trigger] by_name(images).contains(x) <==> exists|i: int|
            is_last_of_its_name(images, i) && images[i] == x by {
            if x == last {
                assert(is_last_of_its_name(images, images.len() - 1));
            }
            if by_name(front).contains(x) && x.name@ != last.name@ {
                let i = choose|i: int| is_last_of_its_name(front, i) && front[i] == x;
                assert forall|j: int| i < j < images.len() implies (#[trigger] images[j]).name@
                    != images[i].name@ by {
                    if j < images.len() - 1 {
                        assert(front[j].name@ != front[i].name@);
                    }
                }
                assert(is_last_of_its_name(images, i) && images[i] == x);
            }
            if exists|i: int| is_last_of_its_name(images, i) && images[i] == x {
                let i = choose|i: int| is_last_of_its_name(images, i) && images[i] == x;
                if i < images.len() - 1 {
                    assert(images[images.len() - 1].name@ != images[i].name@);
                    assert forall|j: int| i < j < front.len() implies (#[trigger] front[j]).name@
                        != front[i].name@ by {
                        assert(images[j].name@ != images[i].name@);
                    }
                    assert(is_last_of_its_name(front, i) && front[i] == x);
                }
            }
        }
    }
}

/// A file of an image.
#[derive(Debug)]
pub struct ImagePart {
    pub file: ImageFile,
    pub addr: Option<u64>,
}

/// A named image.
#[derive(Debug)]
pub struct Image {
    pub name: String,
    pub description: Option<String>,
    pub parts: Vec<ImagePart>,
}

/// A configuration: where it comes from, and its images in the order of their names.
#[derive(Debug)]
pub struct LoadedConfig {
    pub path: Option<String>,
    pub images: Vec<Image>,
}

/// What an [`ImagePart`] says.
pub struct PartEntry {
    pub path: Seq<char>,
    pub extension: Option<Seq<char>>,
    pub addr: Option<u64>,
}

/// What an [`Image`] says.
pub struct ImageEntry {
    pub name: Seq<char>,
    pub description: Option<Seq<char>>,
    pub parts: Seq<PartEntry>,
}

/// What a [`LoadedConfig`] says.
pub struct Catalog {
    pub path: Option<Seq<char>>,
    pub images: Seq<ImageEntry>,
}

impl View for ImagePart {
    type V = PartEntry;

    open spec fn view(&self) -> PartEntry {
        PartEntry {
            path: self.file.path@,
            extension: text::maybe(self.file.extension),
            addr: self.addr,
        }
    }
}

impl View for Image {
    type V = ImageEntry;

    open spec fn view(&self) -> ImageEntry {
        ImageEntry {
            name: self.name@,
            description: text::maybe(self.description),
            parts: self.parts@.map_values(|part: ImagePart| part@),
        }
    }
}

/// What some images say.
pub open spec fn entries(images: Seq<Image>) -> Seq<ImageEntry> {
    images.map_values(|image: Image| image@)
}

impl View for LoadedConfig {
    type V = Catalog;

    open spec fn view(&self) -> Catalog {
        Catalog { path: text::maybe(self.path), images: entries(self.images@) }
    }
}

/// What an image is called in messages.
pub open spec fn image_context(name: Seq<char>) -> Seq<char> {
    "image '"@ + name + "'"@
}

/// A file of an image with its address checked, and with a relative path put below the directory
/// of the configuration file.
pub open spec fn part_entry(name: Seq<char>, part: RawPart) -> Result<PartEntry, Failure> {
    let extension = text::maybe(part.file.extension);
    if part.file.path@.len() == 0 {
        Err(Failure::Usage("an image part in '"@ + name + "' has no file"@))
    } else {
        match image::address_of(part.file.path@, extension, part.addr, image_context(name)) {
            Err(failure) => Err(failure),
            Ok(address) => Ok(
                PartEntry {
                    path: if part.relative {
                        part.joined@
                    } else {
                        part.file.path@
                    },
                    extension,
                    addr: if part.addr is Some {
                        Some(address as u64)
                    } else {
                        None
                    },
                },
            ),
        }
    }
}

/// The files of an image, or the first fault.
pub open spec fn part_entries(name: Seq<char>, parts: Seq<RawPart>) -> Result<
    Seq<PartEntry>,
    Failure,
>
    decreases parts.len(),
{
    if parts.len() == 0 {
        Ok(Seq::empty())
    } else {
        match part_entries(name, parts.drop_last()) {
            Err(failure) => Err(failure),
            Ok(entries) => match part_entry(name, parts.last()) {
                Err(failure) => Err(failure),
                Ok(entry) => Ok(entries.push(entry)),
            },
        }
    }
}

/// An image, or what is wrong with it.
pub open spec fn image_entry(image: RawImage) -> Result<ImageEntry, Failure> {
    if text::trimmed(image.name@).len() == 0 {
        Err(Failure::Usage("image names must not be empty"@))
    } else if image.parts@.len() == 0 {
        Err(Failure::Usage(image_context(image.name@) + " has no parts"@))
    } else {
        match part_entries(image.name@, image.parts@) {
            Err(failure) => Err(failure),
            Ok(parts) => Ok(
                ImageEntry {
                    name: image.name@,
                    description: text::maybe(image.description),
                    parts,
                },
            ),
        }
    }
}

/// The images, or the first fault.
pub open spec fn image_entries(images: Seq<RawImage>) -> Result<Seq<ImageEntry>, Failure>
    decreases images.len(),
{
    if images.len() == 0 {
        Ok(Seq::empty())
    } else {
        match image_entries(images.drop_last()) {
            Err(failure) => Err(failure),
            Ok(entries) => match image_entry(images.last()) {
                Err(failure) => Err(failure),
                Ok(entry) => Ok(entries.push(entry)),
            },
        }
    }
}

/// Copies a text that is perhaps not there.
pub fn copy_of(text: &Option<String>) -> (copy: Option<String>)
    ensures
        text::maybe(copy) == text::maybe(*text),
{
    match text {
        Some(text) => Some(text.clone()),
        None => None,
    }
}

/// Checks a file of an image.
fn check_part(name: &str, part: &RawPart) -> (result: AppResult<ImagePart>)
    ensures
        match part_entry(name@, *part) {
            Ok(entry) => result is Ok && result->Ok_0@ == entry,
            Err(failure) => result is Err && result->Err_0@ == failure,
        },
{
    if part.file.path.as_str().is_empty() {
        return Err(AppError::Usage(cat3("an image part in '", name, "' has no file")));
    }
    let context = cat3("image '", name, "'");
    let address: u32 = validate_image_address(&part.file, part.addr, context.as_str())?;
    Ok(
        ImagePart {
            file: ImageFile {
                path: if part.relative {
                    part.joined.clone()
                } else {
                    part.file.path.clone()
                },
                extension: copy_of(&part.file.extension),
            },
            addr: match part.addr {
                Some(_) => Some(address as u64),
                None => None,
            },
        },
    )
}

/// The first fault of an image decides.
proof fn lemma_part_fault_stays(name: Seq<char>, parts: Seq<RawPart>, n: int)
    requires
        0 <= n <= parts.len(),
        part_entries(name, parts.take(n)) is Err,
    ensures
        part_entries(name, parts) == part_entries(name, parts.take(n)),
    decreases parts.len() - n,
{
    if n == parts.len() {
        assert(parts.take(n) =~= parts);
    } else {
        assert(parts.take(n + 1).drop_last() =~= parts.take(n));
        lemma_part_fault_stays(name, parts, n + 1);
    }
}

/// Checks an image.
fn check_image(image: &RawImage) -> (result: AppResult<Image>)
    ensures
        match image_entry(*image) {
            Ok(entry) => result is Ok && result->Ok_0@ == entry,
            Err(failure) => result is Err && result->Err_0@ == failure,
        },
{
    let name = image.name.as_str();
    if trim(name).as_str().is_empty() {
        return Err(AppError::Usage("image names must not be empty".to_owned()));
    }
    if image.parts.len() == 0 {
        return Err(AppError::Usage(cat4("image '", name, "'", " has no parts")));
    }
    let mut parts: Vec<ImagePart> = Vec::new();
    let mut i: usize = 0;
    assert(image.parts@.take(0) =~= Seq::<RawPart>::empty());
    assert(parts@.map_values(|part: ImagePart| part@) =~= Seq::<PartEntry>::empty());
    while i < image.parts.len()
        invariant
            i <= image.parts@.len(),
            name@ == image.name@,
            text::trimmed(image.name@).len() != 0,
            part_entries(image.name@, image.parts@.take(i as int)) == Ok::<Seq<PartEntry>, Failure>(
                parts@.map_values(|part: ImagePart| part@),
            ),
        decreases image.parts@.len() - i,
    {
        let ghost sofar = parts@;
        assert(image.parts@.take(i + 1).drop_last() =~= image.parts@.take(i as int));
        match check_part(name, &image.parts[i]) {
            Ok(part) => {
                parts.push(part);
                assert(parts@.map_values(|part: ImagePart| part@) =~= sofar.map_values(
                    |part: ImagePart| part@,
                ).push(part@));
            },
            Err(error) => {
                proof {
                    lemma_part_fault_stays(image.name@, image.parts@, i + 1);
                }
                return Err(error);
            },
        }
        i += 1;
    }
    assert(image.parts@.take(i as int) =~= image.parts@);
    Ok(Image { name: image.name.clone(), description: copy_of(&image.description), parts })
}

/// The first fault of a configuration decides.
proof fn lemma_image_fault_stays(images: Seq<RawImage>, n: int)
    requires
        0 <= n <= images.len(),
        image_entries(images.take(n)) is Err,
    ensures
        image_entries(images) == image_entries(images.take(n)),
    decreases images.len() - n,
{
    if n == images.len() {
        assert(images.take(n) =~= images);
    } else {
        assert(images.take(n + 1).drop_last() =~= images.take(n));
        lemma_image_fault_stays(images, n + 1);
    }
}

/// Checks the images of a configuration file, in the order of their names.
pub fn check_images(images: &Vec<RawImage>) -> (result: AppResult<Vec<Image>>)
    ensures
        match image_entries(by_name(images@)) {
            Ok(expected) => result is Ok && entries(result->Ok_0@) == expected,
            Err(failure) => result is Err && result->Err_0@ == failure,
        },
{
    let sorted = sort_by_name(images);
    let ghost all = by_name(images@);
    let mut checked: Vec<Image> = Vec::new();
    let mut i: usize = 0;
    assert(all.take(0) =~= Seq::<RawImage>::empty());
    assert(entries(checked@) =~= Seq::<ImageEntry>::empty());
    while i < sorted.len()
        invariant
            i <= sorted@.len(),
            all == by_name(images@),
            pointed(sorted@) == all,
            image_entries(all.take(i as int)) == Ok::<Seq<ImageEntry>, Failure>(entries(checked@)),
        decreases sorted@.len() - i,
    {
        let ghost sofar = checked@;
        proof {
            assert(all.take(i + 1).drop_last() =~= all.take(i as int));
            assert(pointed(sorted@)[i as int] == *sorted@[i as int]);
        }
        match check_image(sorted[i]) {
            Ok(image) => {
                checked.push(image);
                assert(entries(checked@) =~= entries(sofar).push(image@));
            },
            Err(error) => {
                proof {
                    lemma_image_fault_stays(all, i + 1);
                }
                return Err(error);
            },
        }
        i += 1;
    }
    assert(all.take(i as int) =~= all);
    Ok(checked)
}

/// The first place with a configuration file among those from `i` on, and its path.
pub open spec fn found_from(t: Trail, places: Seq<ConfigPlace>, i: nat) -> (
    Trail,
    Result<Option<(ConfigPlace, Seq<char>)>, Halt>,
)
    decreases places.len() - i,
{
    if i >= places.len() {
        (t, Ok(None))
    } else {
        match walk::ask_found(t, Request::FindConfig(places[i as int])) {
            (u, Err(halt)) => (u, Err(halt)),
            (u, Ok(Some(path))) => (u, Ok(Some((places[i as int], path)))),
            (u, Ok(None)) => found_from(u, places, i + 1),
        }
    }
}

/// Finds the first place with a configuration file.
fn find_config(walk: &mut Walk, places: &Vec<ConfigPlace>) -> (found: Result<
    Option<(ConfigPlace, String)>,
    Stop,
>)
    ensures
        final(walk)@ == found_from(old(walk)@, places@, 0).0,
        match found_from(old(walk)@, places@, 0).1 {
            Err(halt) => found is Err && found->Err_0@ == halt,
            Ok(None) => found == Ok::<Option<(ConfigPlace, String)>, Stop>(None),
            Ok(Some((place, path))) => found matches Ok(Some((p, s))) && p == place && s@ == path,
        },
{
    let mut i: usize = 0;
    while i < places.len()
        invariant
            i <= places@.len(),
            found_from(old(walk)@, places@, 0) == found_from(walk@, places@, i as nat),
        decreases places@.len() - i,
    {
        let place = places[i];
        if let Some(path) = walk.found(Op::FindConfig(place))? {
            return Ok(Some((place, path)));
        }
        i += 1;
    }
    Ok(None)
}

/// A failure of a command with wrong or missing input.
pub open spec fn usage<T>(message: Seq<char>) -> Result<T, Halt> {
    Err(Halt::Fail(Failure::Usage(message)))
}

/// The complaint about a configuration file that is not valid TOML.
pub open spec fn parse_complaint(path: Seq<char>, reason: Seq<char>) -> Seq<char> {
    "cannot parse "@ + path + ": "@ + reason + (if text::occurs(
        text::lowered(reason),
        "escape"@,
    ) {
        "; use single quotes for Windows paths"@
    } else {
        ""@
    })
}

/// The configuration in a file.
#[verifier::opaque]
pub open spec fn file_loaded(t: Trail, place: ConfigPlace, path: Seq<char>) -> (
    Trail,
    Result<Catalog, Halt>,
) {
    match walk::ask_text(t, Request::ReadConfig(place)) {
        (u, Err(halt)) => (u, Err(halt)),
        (u, Ok(Err(reason))) => (u, usage("cannot read "@ + path + ": "@ + reason)),
        (u, Ok(Ok(toml))) => match walk::ask(u, Request::ParseConfig(place, toml)) {
            (v, Err(halt)) => (v, Err(halt)),
            (v, Ok(Reply::Failed(reason))) => (v, usage(parse_complaint(path, reason@))),
            (v, Ok(Reply::Images(images))) => match image_entries(by_name(images@)) {
                Err(failure) => (v, Err(Halt::Fail(failure))),
                Ok(entries) => (v, Ok(Catalog { path: Some(path), images: entries })),
            },
            (v, Ok(_)) => (v, Err(Halt::Stray)),
        },
    }
}

/// Reads a configuration file.
fn parse_config_file(walk: &mut Walk, place: ConfigPlace, path: String) -> (config: Result<
    LoadedConfig,
    Stop,
>)
    ensures
        (final(walk)@, walk::seen(config)) == file_loaded(old(walk)@, place, path@),
{
    reveal(file_loaded);
    let toml = match walk.text(Op::ReadConfig(place))? {
        Ok(toml) => toml,
        Err(reason) => {
            return Err(
                Stop::Fail(
                    AppError::Usage(cat4("cannot read ", path.as_str(), ": ", reason.as_str())),
                ),
            );
        },
    };
    match walk.ask(Op::ParseConfig(place, toml))? {
        Reply::Failed(reason) => {
            let mut message = cat4("cannot parse ", path.as_str(), ": ", reason.as_str());
            message.append(
                if contains(to_lower(reason.as_str()).as_str(), "escape") {
                    "; use single quotes for Windows paths"
                } else {
                    ""
                },
            );
            Err(Stop::Fail(AppError::Usage(message)))
        },
        Reply::Images(images) => {
            let images = lift(check_images(images))?;
            Ok(LoadedConfig { path: Some(path), images })
        },
        _ => Err(Stop::Stray),
    }
}

/// The configuration: that of the given file, or of the first file that is found, or none.
#[verifier::opaque]
pub open spec fn loaded(t: Trail, explicit: Option<Seq<char>>) -> (Trail, Result<Catalog, Halt>) {
    match walk::ask(t, Request::FindExecutable) {
        (u, Err(halt)) => (u, Err(halt)),
        (u, Ok(Reply::Failed(reason))) => (
            u,
            usage("cannot locate the jog executable: "@ + reason@),
        ),
        (u, Ok(Reply::Flag(beside))) => match walk::ask_done(u, Request::FindCurrentDirectory) {
            (v, Err(halt)) => (v, Err(halt)),
            (v, Ok(Err(reason))) => (v, usage("cannot locate the current directory: "@ + reason)),
            (v, Ok(Ok(()))) => match walk::ask(v, Request::ReadEnvironment) {
                (x, Err(halt)) => (x, Err(halt)),
                (x, Ok(Reply::Environment(environment))) => match candidates(
                    x,
                    explicit is Some,
                    beside,
                    environment,
                ) {
                    (y, Err(halt)) => (y, Err(halt)),
                    (y, Ok(places)) => match found_from(y, places, 0) {
                        (z, Err(halt)) => (z, Err(halt)),
                        (z, Ok(Some((place, path)))) => file_loaded(z, place, path),
                        (z, Ok(None)) => match explicit {
                            Some(path) => (
                                z,
                                usage("configuration file does not exist: "@ + path),
                            ),
                            None => (z, Ok(Catalog { path: None, images: Seq::empty() })),
                        },
                    },
                },
                (x, Ok(_)) => (x, Err(Halt::Stray)),
            },
        },
        (u, Ok(_)) => (u, Err(Halt::Stray)),
    }
}

/// Finds and reads the configuration.
pub fn load_config(walk: &mut Walk, explicit: &Option<String>) -> (config: Result<
    LoadedConfig,
    Stop,
>)
    ensures
        (final(walk)@, walk::seen(config)) == loaded(old(walk)@, text::maybe(*explicit)),
{
    reveal(loaded);
    let beside = match walk.ask(Op::FindExecutable)? {
        Reply::Flag(beside) => *beside,
        Reply::Failed(reason) => {
            return Err(
                Stop::Fail(
                    AppError::Usage(cat("cannot locate the jog executable: ", reason.as_str())),
                ),
            );
        },
        _ => {
            return Err(Stop::Stray);
        },
    };
    if let Err(reason) = walk.done(Op::FindCurrentDirectory)? {
        return Err(
            Stop::Fail(
                AppError::Usage(cat("cannot locate the current directory: ", reason.as_str())),
            ),
        );
    }
    let environment = match walk.ask(Op::ReadEnvironment)? {
        Reply::Environment(environment) => environment,
        _ => {
            return Err(Stop::Stray);
        },
    };
    let places = config_candidates(walk, explicit.is_some(), beside, environment)?;
    match find_config(walk, &places)? {
        Some((place, path)) => parse_config_file(walk, place, path),
        None => match explicit {
            Some(path) => Err(
                Stop::Fail(
                    AppError::Usage(cat("configuration file does not exist: ", path.as_str())),
                ),
            ),
            None => {
                let config = LoadedConfig { path: None, images: Vec::new() };
                assert(entries(config.images@) =~= Seq::<ImageEntry>::empty());
                Ok(config)
            },
        },
    }
}

/// A new configuration file.
pub const CONFIG_TEMPLATE: &'static str = r#"# jog image configuration
# All examples are comments. No images are defined yet.
# To enable an example, remove the leading '# ' from its TOML lines.
# Replace the example paths and check the addresses before use.
# Relative file paths start from the directory that contains this file.
# Use single quotes around paths, especially Windows paths.
# Set connection options, such as --transport jtag, on the command line.
#
# ELF, AXF, HEX, IHEX, and MCS files supply their own addresses. Omit addr.
# [images.application]
# description = 'Main application'
# parts = [{ file = 'build/app.elf' }]
#
# Intel HEX files can contain several separated data ranges.
# [images.firmware]
# parts = [{ file = 'build/firmware.hex' }]
#
# BIN files need a flash address. 0x00400000 is the start of flash.
# [images.application_bin]
# parts = [{ file = 'build/app.bin', addr = 0x00400000 }]
#
# To write several files with one name, list each part. Data must not overlap.
# [images.combined]
# parts = [
#     { file = 'build/part1.bin', addr = 0x00400000 },
#     { file = 'build/part2.bin', addr = 0x00420000 },
# ]
#
# List image names: jog images
# Write an image: jog flash application
# To select this file explicitly: jog --config path/to/jog.toml images
"#;

/// The place of the user's own configuration.
#[verifier::opaque]
pub open spec fn user_place_found(t: Trail) -> (Trail, Result<ConfigPlace, Halt>) {
    match walk::ask(t, Request::ReadEnvironment) {
        (u, Err(halt)) => (u, Err(halt)),
        (u, Ok(Reply::Environment(environment))) => (u, walk::lifted(user_place(environment))),
        (u, Ok(_)) => (u, Err(Halt::Stray)),
    }
}

impl View for ConfigPlace {
    type V = ConfigPlace;

    open spec fn view(&self) -> ConfigPlace {
        *self
    }
}

/// Finds the place of the user's own configuration.
fn find_user_place(walk: &mut Walk) -> (place: Result<ConfigPlace, Stop>)
    ensures
        (final(walk)@, walk::seen(place)) == user_place_found(old(walk)@),
{
    reveal(user_place_found);
    match walk.ask(Op::ReadEnvironment)? {
        Reply::Environment(environment) => lift(config_directory(environment)),
        _ => Err(Stop::Stray),
    }
}

/// A path is shown.
pub open spec fn shown(t: Trail, request: Request) -> (Trail, Result<Seq<char>, Halt>) {
    match walk::ask_text(t, request) {
        (u, Err(halt)) => (u, Err(halt)),
        (u, Ok(Err(_))) => (u, Err(Halt::Stray)),
        (u, Ok(Ok(path))) => (u, Ok(path)),
    }
}

/// Shows a path.
fn show(walk: &mut Walk, op: Op) -> (path: Result<String, Stop>)
    ensures
        (final(walk)@, walk::seen(path)) == shown(old(walk)@, op@),
{
    match walk.text(op)? {
        Ok(path) => Ok(path),
        Err(_) => Err(Stop::Stray),
    }
}

/// The directory of the user's own configuration is printed, whether or not it exists.
#[verifier::opaque]
pub open spec fn directory_printed(t: Trail) -> (Trail, Result<(), Halt>) {
    match user_place_found(t) {
        (u, Err(halt)) => (u, Err(halt)),
        (u, Ok(place)) => match shown(u, Request::ShowConfigDirectory(place)) {
            (v, Err(halt)) => (v, Err(halt)),
            (v, Ok(path)) => walk::ask_act(v, Request::Print(path)),
        },
    }
}

/// Prints the directory of the user's own configuration.
pub fn print_config_directory(walk: &mut Walk) -> (outcome: Result<(), Stop>)
    ensures
        (final(walk)@, walk::seen(outcome)) == directory_printed(old(walk)@),
{
    reveal(directory_printed);
    let place = find_user_place(walk)?;
    let path = show(walk, Op::ShowConfigDirectory(place))?;
    walk.print(path.as_str())
}

/// The directory for a new configuration file is there.
#[verifier::opaque]
pub open spec fn parent_created(t: Trail, place: ConfigPlace) -> (Trail, Result<(), Halt>) {
    match walk::ask_found(t, Request::ShowParent(place)) {
        (u, Err(halt)) => (u, Err(halt)),
        (u, Ok(None)) => (u, Ok(())),
        (u, Ok(Some(parent))) => match walk::ask_done(u, Request::CreateParent(place)) {
            (v, Err(halt)) => (v, Err(halt)),
            (v, Ok(Ok(()))) => (v, Ok(())),
            (v, Ok(Err(reason))) => (
                v,
                Err(
                    Halt::Fail(
                        Failure::Runtime("cannot create "@ + parent + ": "@ + reason),
                    ),
                ),
            ),
        },
    }
}

/// A new configuration file is created. A file that is there already is left as it is.
#[verifier::opaque]
pub open spec fn config_created(t: Trail, place: ConfigPlace, path: Seq<char>) -> (
    Trail,
    Result<(), Halt>,
) {
    match parent_created(t, place) {
        (u, Err(halt)) => (u, Err(halt)),
        (u, Ok(())) => match walk::ask(u, Request::CreateConfig(place)) {
            (v, Err(halt)) => (v, Err(halt)),
            (v, Ok(Reply::Exists)) => (
                v,
                usage("configuration file already exists: "@ + path),
            ),
            (v, Ok(Reply::Failed(reason))) => (
                v,
                Err(Halt::Fail(Failure::Runtime("cannot create "@ + path + ": "@ + reason@))),
            ),
            (v, Ok(Reply::Done)) => match walk::ask_done(
                v,
                Request::WriteConfig(place, CONFIG_TEMPLATE@),
            ) {
                (x, Err(halt)) => (x, Err(halt)),
                (x, Ok(Ok(()))) => (x, Ok(())),
                (x, Ok(Err(reason))) => (
                    x,
                    Err(Halt::Fail(Failure::Runtime("cannot write "@ + path + ": "@ + reason))),
                ),
            },
            (v, Ok(_)) => (v, Err(Halt::Stray)),
        },
    }
}

/// A new configuration file is created in the given place or in the user's own.
#[verifier::opaque]
pub open spec fn config_initialized(t: Trail, explicit: bool) -> (Trail, Result<Seq<char>, Halt>) {
    let (u, place) = if explicit {
        (t, Ok(ConfigPlace::Explicit))
    } else {
        user_place_found(t)
    };
    match place {
        Err(halt) => (u, Err(halt)),
        Ok(place) => match shown(u, Request::ShowConfig(place)) {
            (v, Err(halt)) => (v, Err(halt)),
            (v, Ok(path)) => match config_created(v, place, path) {
                (x, Err(halt)) => (x, Err(halt)),
                (x, Ok(())) => (x, Ok(path)),
            },
        },
    }
}

/// Creates the directory for a new configuration file.
fn create_parent(walk: &mut Walk, place: ConfigPlace) -> (outcome: Result<(), Stop>)
    ensures
        (final(walk)@, walk::seen(outcome)) == parent_created(old(walk)@, place),
{
    reveal(parent_created);
    if let Some(parent) = walk.found(Op::ShowParent(place))? {
        if let Err(reason) = walk.done(Op::CreateParent(place))? {
            return Err(
                Stop::Fail(
                    AppError::Runtime(cat4("cannot create ", parent.as_str(), ": ", reason.as_str())),
                ),
            );
        }
    }
    Ok(())
}

/// Creates a new configuration file.
fn create_config(walk: &mut Walk, place: ConfigPlace, path: &str) -> (outcome: Result<(), Stop>)
    ensures
        (final(walk)@, walk::seen(outcome)) == config_created(old(walk)@, place, path@),
{
    reveal(config_created);
    create_parent(walk, place)?;
    match walk.ask(Op::CreateConfig(place))? {
        Reply::Exists => Err(
            Stop::Fail(AppError::Usage(cat("configuration file already exists: ", path))),
        ),
        Reply::Failed(reason) => Err(
            Stop::Fail(AppError::Runtime(cat4("cannot create ", path, ": ", reason.as_str()))),
        ),
        Reply::Done => match walk.done(Op::WriteConfig(place, CONFIG_TEMPLATE.to_owned()))? {
            Ok(()) => Ok(()),
            Err(reason) => Err(
                Stop::Fail(AppError::Runtime(cat4("cannot write ", path, ": ", reason.as_str()))),
            ),
        },
        _ => Err(Stop::Stray),
    }
}

/// Creates a new configuration file and gives its path.
pub fn init_config(walk: &mut Walk, explicit: bool) -> (path: Result<String, Stop>)
    ensures
        (final(walk)@, walk::seen(path)) == config_initialized(old(walk)@, explicit),
{
    reveal(config_initialized);
    let place = if explicit {
        ConfigPlace::Explicit
    } else {
        find_user_place(walk)?
    };
    let path = show(walk, Op::ShowConfig(place))?;
    create_config(walk, place, path.as_str())?;
    Ok(path)
}

/// A configuration file that is there already is left as it is: something is written only when a
/// new file has just been created, and what is written is the template.
pub proof fn law_existing_configuration_is_left_alone(t: Trail, explicit: bool)
    ensures
        config_initialized(t, explicit).1 matches Err(Halt::Ask(Request::WriteConfig(place, text)))
            ==> {
            &&& text == CONFIG_TEMPLATE@
            &&& exists|u: Trail|
                u.replies == t.replies && #[trigger] walk::ask(u, Request::CreateConfig(place)) == (
                    config_initialized(t, explicit).0,
                    Ok::<Reply, Halt>(Reply::Done),
                )
        },
{
    reveal(config_initialized);
    reveal(user_place_found);
    reveal(config_created);
    reveal(parent_created);
    let place = if explicit {
        (t, Ok(ConfigPlace::Explicit))
    } else {
        user_place_found(t)
    };
    if let (u, Ok(place)) = place {
        if let (v, Ok(path)) = shown(u, Request::ShowConfig(place)) {
            if let (x, Ok(())) = parent_created(v, place) {
                let created = walk::ask(x, Request::CreateConfig(place));
                assert(x.replies == t.replies);
            }
        }
    }
}

/// The configuration file is the first one that is there: for each place before it, the reply was
/// that there is none.
pub proof fn law_first_configuration_is_used(t: Trail, places: Seq<ConfigPlace>, i: nat)
    requires
        0 <= t.at,
    ensures
        found_from(t, places, i).1 matches Ok(Some((place, path))) ==> {
            let last = found_from(t, places, i).0.at - 1;
            let k = i + last - t.at;
            &&& t.at <= last < t.replies.len()
            &&& i <= k < places.len()
            &&& place == places[k]
            &&& t.replies[last] matches Reply::Found(Some(shown)) && shown@ == path
            &&& forall|j: int|
                t.at <= j < last ==> (#[trigger] t.replies[j]) == Reply::Found(None)
        },
        found_from(t, places, i).0.replies == t.replies,
    decreases places.len() - i,
{
    if i < places.len() {
        let (u, found) = walk::ask_found(t, Request::FindConfig(places[i as int]));
        if found == Ok::<Option<Seq<char>>, Halt>(None) {
            law_first_configuration_is_used(u, places, i + 1);
        }
    }
}

/// Whether each line of a text is blank or a comment: what follows a line feed, and what the text
/// begins with, is `#` or a line feed.
pub open spec fn has_only_comments(text: Seq<char>) -> bool {
    forall|i: int|
        0 <= i < text.len() && (i == 0 || text[i - 1] == '\n') ==> (#[trigger] text[i]) == '#'
            || text[i] == '\n'
}

/// The template for a new configuration file is made of comments and blank lines.
pub proof fn law_template_has_only_comments()
    ensures
        has_only_comments(CONFIG_TEMPLATE@),
{
    reveal_strlit(r#"# jog image configuration
# All examples are comments. No images are defined yet.
# To enable an example, remove the leading '# ' from its TOML lines.
# Replace the example paths and check the addresses before use.
# Relative file paths start from the directory that contains this file.
# Use single quotes around paths, especially Windows paths.
# Set connection options, such as --transport jtag, on the command line.
#
# ELF, AXF, HEX, IHEX, and MCS files supply their own addresses. Omit addr.
# [images.application]
# description = 'Main application'
# parts = [{ file = 'build/app.elf' }]
#
# Intel HEX files can contain several separated data ranges.
# [images.firmware]
# parts = [{ file = 'build/firmware.hex' }]
#
# BIN files need a flash address. 0x00400000 is the start of flash.
# [images.application_bin]
# parts = [{ file = 'build/app.bin', addr = 0x00400000 }]
#
# To write several files with one name, list each part. Data must not overlap.
# [images.combined]
# parts = [
#     { file = 'build/part1.bin', addr = 0x00400000 },
#     { file = 'build/part2.bin', addr = 0x00420000 },
# ]
#
# List image names: jog images
# Write an image: jog flash application
# To select this file explicitly: jog --config path/to/jog.toml images
"#);
}

/// Where a new configuration file goes.
pub open spec fn is_new_place(t: Trail, explicit: bool, u: Trail, place: ConfigPlace) -> bool {
    if explicit {
        u == t && place == ConfigPlace::Explicit
    } else {
        user_place_found(t) == (u, Ok::<ConfigPlace, Halt>(place))
    }
}

/// A configuration file is created once. Where there is one already, the user is told so, and
/// nothing more is asked for. Where there is none, its directory is created first, the template is
/// written into the new file, which then holds only comments and blank lines, and the result is the
/// path of the file.
pub proof fn law_configuration_is_created_once(
    t: Trail,
    explicit: bool,
    u: Trail,
    place: ConfigPlace,
    v: Trail,
    path: Seq<char>,
    x: Trail,
)
    requires
        is_new_place(t, explicit, u, place),
        shown(u, Request::ShowConfig(place)) == (v, Ok::<Seq<char>, Halt>(path)),
        parent_created(v, place) == (x, Ok::<(), Halt>(())),
    ensures
        ({
            let (y, created) = walk::ask(x, Request::CreateConfig(place));
            let (z, written) = walk::ask_done(y, Request::WriteConfig(place, CONFIG_TEMPLATE@));
            let (w, parent) = walk::ask_found(v, Request::ShowParent(place));
            &&& created == Ok::<Reply, Halt>(Reply::Exists) ==> config_initialized(t, explicit) == (
                y,
                usage::<Seq<char>>("configuration file already exists: "@ + path),
            )
            &&& created == Ok::<Reply, Halt>(Reply::Done) && written == Ok::<
                Result<(), Seq<char>>,
                Halt,
            >(Ok(())) ==> config_initialized(t, explicit) == (z, Ok::<Seq<char>, Halt>(path))
            &&& parent matches Ok(Some(_)) ==> walk::ask_done(w, Request::CreateParent(place)) == (
                x,
                Ok::<Result<(), Seq<char>>, Halt>(Ok(())),
            )
        }),
        has_only_comments(CONFIG_TEMPLATE@),
{
    reveal(config_initialized);
    reveal(config_created);
    reveal(parent_created);
    law_template_has_only_comments();
}

/// A configuration file in which no image is found, as one that holds only comments, gives a
/// configuration without images.
pub proof fn law_configuration_without_images_is_empty(
    t: Trail,
    place: ConfigPlace,
    path: Seq<char>,
    u: Trail,
    toml: Seq<char>,
    v: Trail,
    images: Vec<RawImage>,
)
    requires
        walk::ask_text(t, Request::ReadConfig(place)) == (
            u,
            Ok::<Result<Seq<char>, Seq<char>>, Halt>(Ok(toml)),
        ),
        walk::ask(u, Request::ParseConfig(place, toml)) == (
            v,
            Ok::<Reply, Halt>(Reply::Images(images)),
        ),
        images@.len() == 0,
    ensures
        file_loaded(t, place, path) == (
            v,
            Ok::<Catalog, Halt>(Catalog { path: Some(path), images: Seq::empty() }),
        ),
{
    reveal(file_loaded);
}

} // verus!
