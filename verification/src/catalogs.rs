//! What holds of configurations and of the commands on them.
use vstd::prelude::*;

use crate::commands;
use crate::commands::Cli;
use crate::config;
use crate::config::{Catalog, ConfigPlace, Environment, ImageEntry, PartEntry, RawImage, RawPart};
use crate::image;
use crate::image::ImageFormat;
use crate::number;
use crate::outcomes;
use crate::plans;
use crate::promises;
use crate::promises::Reach;
use crate::text;
use crate::walk;
use crate::walk::{Halt, Reply, Request, Trail};
use crate::wording;

verus! {

/// Whether a file of an image can be taken: it has a path, a format, and an address exactly where
/// the format needs one.
pub open spec fn is_good_part(part: RawPart) -> bool {
    &&& part.file.path@.len() > 0
    &&& exists|format: ImageFormat, address: u32|
        plans::stands_for(text::maybe(part.file.extension), format) && #[trigger] plans::is_given(
            format,
            part.addr,
            address,
        )
}

/// Whether an entry is that of a file in a configuration: a relative path is put below the directory
/// of the configuration file, and an address below the start of flash counts from there.
pub open spec fn is_entry_of(entry: PartEntry, part: RawPart) -> bool {
    &&& entry.path == if part.relative {
        part.joined@
    } else {
        part.file.path@
    }
    &&& entry.extension == text::maybe(part.file.extension)
    &&& match part.addr {
        None => entry.addr is None,
        Some(addr) => entry.addr is Some && entry.addr->0 == if addr < 0x40_0000 {
            addr + 0x40_0000
        } else {
            addr as int
        },
    }
}

/// A file of an image is taken where it can be, and its entry says what the configuration says.
pub proof fn law_part_is_taken_as_configured(name: Seq<char>, part: RawPart)
    ensures
        match config::part_entry(name, part) {
            Ok(entry) => is_good_part(part) && is_entry_of(entry, part),
            Err(_) => !is_good_part(part),
        },
{
    let extension = text::maybe(part.file.extension);
    let path = part.file.path@;
    plans::law_file_is_taken_as_given(path, extension, part.addr, config::image_context(name));
    match image::address_of(path, extension, part.addr, config::image_context(name)) {
        Ok(address) => {
            let format = image::format_of(path, extension)->Ok_0;
            assert(plans::is_given(format, part.addr, address));
        },
        Err(_) => {},
    }
}

/// The files of an image are taken where all can be.
proof fn lemma_part_entries(name: Seq<char>, parts: Seq<RawPart>)
    ensures
        match config::part_entries(name, parts) {
            Ok(entries) => entries.len() == parts.len() && forall|i: int|
                0 <= i < parts.len() ==> is_good_part(#[trigger] parts[i]) && is_entry_of(
                    entries[i],
                    parts[i],
                ),
            Err(_) => exists|i: int| 0 <= i < parts.len() && !is_good_part(#[trigger] parts[i]),
        },
    decreases parts.len(),
{
    if parts.len() > 0 {
        let front = parts.drop_last();
        lemma_part_entries(name, front);
        law_part_is_taken_as_configured(name, parts.last());
        match config::part_entries(name, front) {
            Ok(found) => {
                if let Ok(entries) = config::part_entries(name, parts) {
                    assert forall|i: int| 0 <= i < parts.len() implies is_good_part(
                        #[trigger] parts[i],
                    ) && is_entry_of(entries[i], parts[i]) by {
                        if i < front.len() {
                            assert(front[i] == parts[i]);
                        }
                    }
                } else {
                    assert(!is_good_part(parts[parts.len() - 1]));
                }
            },
            Err(_) => {
                let i = choose|i: int| 0 <= i < front.len() && !is_good_part(#[trigger] front[i]);
                assert(!is_good_part(parts[i]));
            },
        }
    }
}

/// Whether an image can be taken: its name is not blank, it has files, and each can be taken.
pub open spec fn is_good_image(image: RawImage) -> bool {
    &&& exists|i: int| 0 <= i < image.name@.len() && !text::white_space(#[trigger] image.name@[i])
    &&& image.parts@.len() > 0
    &&& forall|i: int| 0 <= i < image.parts@.len() ==> is_good_part(#[trigger] image.parts@[i])
}

/// Whether an entry is that of an image in a configuration.
pub open spec fn is_image_of(entry: ImageEntry, image: RawImage) -> bool {
    &&& entry.name == image.name@
    &&& entry.description == text::maybe(image.description)
    &&& entry.parts.len() == image.parts@.len()
    &&& forall|i: int|
        0 <= i < entry.parts.len() ==> is_entry_of(#[trigger] entry.parts[i], image.parts@[i])
}

/// What is trimmed off a text is white space, and what is left does not begin or end with it.
proof fn lemma_blank(s: Seq<char>)
    ensures
        text::trimmed(s).len() == 0 <==> forall|i: int|
            0 <= i < s.len() ==> text::white_space(#[trigger] s[i]),
{
    lemma_blank_start(s);
    let t = text::trim_start(s);
    lemma_blank_end(t);
    if t.len() > 0 {
        text::lemma_trim_start(s);
        assert(!text::white_space(t[0]));
    }
}

/// Nothing is left in front exactly where all is white space.
proof fn lemma_blank_start(s: Seq<char>)
    ensures
        text::trim_start(s).len() == 0 <==> forall|i: int|
            0 <= i < s.len() ==> text::white_space(#[trigger] s[i]),
    decreases s.len(),
{
    if s.len() > 0 && text::white_space(s[0]) {
        let rest = s.skip(1);
        lemma_blank_start(rest);
        if text::trim_start(s).len() == 0 {
            assert forall|i: int| 0 <= i < s.len() implies text::white_space(#[trigger] s[i]) by {
                if i > 0 {
                    assert(rest[i - 1] == s[i]);
                }
            }
        } else {
            let k = choose|k: int| 0 <= k < rest.len() && !text::white_space(#[trigger] rest[k]);
            assert(s[k + 1] == rest[k]);
        }
    }
}

/// Nothing is left behind exactly where all is white space.
proof fn lemma_blank_end(s: Seq<char>)
    ensures
        text::trim_end(s).len() == 0 <==> forall|i: int|
            0 <= i < s.len() ==> text::white_space(#[trigger] s[i]),
    decreases s.len(),
{
    if s.len() > 0 && text::white_space(s.last()) {
        let front = s.drop_last();
        lemma_blank_end(front);
        if text::trim_end(s).len() == 0 {
            assert forall|i: int| 0 <= i < s.len() implies text::white_space(#[trigger] s[i]) by {
                if i < front.len() {
                    assert(front[i] == s[i]);
                }
            }
        } else {
            let k = choose|k: int| 0 <= k < front.len() && !text::white_space(#[trigger] front[k]);
            assert(s[k] == front[k]);
        }
    } else if s.len() > 0 {
        assert(!text::white_space(s[s.len() - 1]));
    }
}

/// An image is taken where it can be, and its entry says what the configuration says.
pub proof fn law_image_is_taken_as_configured(image: RawImage)
    ensures
        match config::image_entry(image) {
            Ok(entry) => is_good_image(image) && is_image_of(entry, image),
            Err(_) => !is_good_image(image),
        },
{
    lemma_blank(image.name@);
    lemma_part_entries(image.name@, image.parts@);
}

/// Images are taken where all can be, and their entries say what the configuration says.
pub proof fn law_images_are_taken_as_configured(images: Seq<RawImage>)
    ensures
        match config::image_entries(images) {
            Ok(entries) => entries.len() == images.len() && forall|i: int|
                0 <= i < images.len() ==> is_good_image(#[trigger] images[i]) && is_image_of(
                    entries[i],
                    images[i],
                ),
            Err(_) => exists|i: int| 0 <= i < images.len() && !is_good_image(#[trigger] images[i]),
        },
    decreases images.len(),
{
    if images.len() > 0 {
        let front = images.drop_last();
        law_images_are_taken_as_configured(front);
        law_image_is_taken_as_configured(images.last());
        match config::image_entries(front) {
            Ok(found) => {
                if let Ok(entries) = config::image_entries(images) {
                    assert forall|i: int| 0 <= i < images.len() implies is_good_image(
                        #[trigger] images[i],
                    ) && is_image_of(entries[i], images[i]) by {
                        if i < front.len() {
                            assert(front[i] == images[i]);
                        }
                    }
                } else {
                    assert(!is_good_image(images[images.len() - 1]));
                }
            },
            Err(_) => {
                let i = choose|i: int| 0 <= i < front.len() && !is_good_image(#[trigger] front[i]);
                assert(!is_good_image(images[i]));
            },
        }
    }
}

/// How a configuration file was read.
pub struct Source {
    pub place: ConfigPlace,
    pub shown: String,
    pub toml: String,
    pub images: Vec<RawImage>,
}

/// Whether a configuration is what a file holds that was found, read and parsed between two points
/// of a walk: its images are those of the file, and each image of the file is in it unless a later
/// one has its name.
pub open spec fn is_read_from(t: Trail, u: Trail, catalog: Catalog, source: Source) -> bool {
    let raw = source.images@;
    let place = source.place;
    &&& catalog.path == Some(source.shown@)
    &&& walk::told(t, u, Request::FindConfig(place), Reply::Found(Some(source.shown)))
    &&& walk::told(t, u, Request::ReadConfig(place), Reply::Text(source.toml))
    &&& walk::told(
        t,
        u,
        Request::ParseConfig(place, source.toml@),
        Reply::Images(source.images),
    )
    &&& forall|k: int|
        0 <= k < catalog.images.len() ==> has_source(raw, #[trigger] catalog.images[k])
    &&& forall|i: int| #[trigger]
        config::is_last_of_its_name(raw, i) ==> has_entry(catalog.images, raw[i])
}

/// Whether an entry is that of the last image of its name.
pub open spec fn has_source(raw: Seq<RawImage>, entry: ImageEntry) -> bool {
    exists|i: int| #[trigger] config::is_last_of_its_name(raw, i) && is_image_of(entry, raw[i])
}

/// Whether an image has an entry.
pub open spec fn has_entry(entries: Seq<ImageEntry>, image: RawImage) -> bool {
    exists|k: int| 0 <= k < entries.len() && is_image_of(#[trigger] entries[k], image)
}

/// Whether a configuration file was found in a place between two points of a walk.
pub open spec fn did_find(t: Trail, u: Trail, place: ConfigPlace, path: Seq<char>) -> bool {
    exists|shown: String|
        #[trigger] walk::told(t, u, Request::FindConfig(place), Reply::Found(Some(shown))) && shown@
            == path
}

/// The place that is found is one of the places, and its path was told.
proof fn lemma_found(t: Trail, places: Seq<ConfigPlace>, i: nat)
    requires
        t.at >= 0,
    ensures
        config::found_from(t, places, i) matches (u, Ok(found)) ==> walk::leads_to(t, u) && match found {
            Some((place, path)) => places.contains(place) && did_find(t, u, place, path),
            None => forall|k: int|
                i <= k < places.len() ==> walk::told(
                    t,
                    u,
                    Request::FindConfig(#[trigger] places[k]),
                    Reply::Found(None),
                ),
        },
    decreases places.len() - i,
{
    if i < places.len() {
        let asked = Request::FindConfig(places[i as int]);
        if let (v, Ok(first)) = walk::ask_found(t, asked) {
            walk::lemma_told(t, asked);
            let reply = walk::ask(t, asked).1->Ok_0;
            match first {
                Some(path) => {
                    let shown = reply->Found_0->0;
                    assert(reply == Reply::Found(Some(shown)));
                    assert(did_find(t, v, places[i as int], path));
                },
                None => {
                    lemma_found(v, places, i + 1);
                    if let (u, Ok(found)) = config::found_from(v, places, i + 1) {
                        assert(reply == Reply::Found(None));
                        walk::lemma_told_inside(t, t, v, u, asked, reply);
                        if let Some((place, path)) = found {
                            let shown = choose|shown: String|
                                #[trigger] walk::told(
                                    v,
                                    u,
                                    Request::FindConfig(place),
                                    Reply::Found(Some(shown)),
                                ) && shown@ == path;
                            walk::lemma_told_inside(
                                t,
                                v,
                                u,
                                u,
                                Request::FindConfig(place),
                                Reply::Found(Some(shown)),
                            );
                            assert(did_find(t, u, place, path));
                        } else {
                            assert forall|k: int| i <= k < places.len() implies walk::told(
                                t,
                                u,
                                Request::FindConfig(#[trigger] places[k]),
                                Reply::Found(None),
                            ) by {
                                if k > i {
                                    walk::lemma_told_inside(
                                        t,
                                        v,
                                        u,
                                        u,
                                        Request::FindConfig(places[k]),
                                        Reply::Found(None),
                                    );
                                }
                            }
                        }
                    }
                },
            }
        }
    }
}

/// The places that are kept are among the listed ones.
proof fn lemma_candidates(t: Trail, explicit: bool, beside: bool, environment: Environment)
    ensures
        config::candidates(t, explicit, beside, environment).1 matches Ok(places) ==> {
            &&& places.len() > 0
            &&& forall|place: ConfigPlace|
                places.contains(place) ==> (explicit <==> place == ConfigPlace::Explicit)
        },
{
    let listed = config::listed_places(explicit, beside, environment);
    config::law_only_repeated_paths_are_left_out(t, listed, listed.len());
    if let Ok(places) = config::candidates(t, explicit, beside, environment).1 {
        assert forall|place: ConfigPlace| places.contains(place) implies (explicit <==> place
            == ConfigPlace::Explicit) by {
            let k = places.index_of(place);
            assert(listed.contains(places[k]));
        }
    }
}

/// A configuration is what its file says: the file that the user names, and no other, where one is
/// named. Where none is found, the configuration is empty, which it never is for want of the named
/// file.
pub proof fn law_configuration_is_that_of_its_file(t: Trail, explicit: Option<Seq<char>>)
    requires
        t.at >= 0,
    ensures
        config::loaded(t, explicit) matches (u, Ok(catalog)) ==> {
            ||| exists|source: Source|
                #[trigger] is_read_from(t, u, catalog, source) && (explicit is Some <==> source.place
                    == ConfigPlace::Explicit)
            ||| explicit is None && catalog.path is None && catalog.images.len() == 0 && walk::told(
                t,
                u,
                Request::FindConfig(ConfigPlace::CurrentDirectory),
                Reply::Found(None),
            )
        },
{
    if let (end, Ok(catalog)) = config::loaded(t, explicit) {
        reveal(config::loaded);
        let (u, beside) = walk::ask(t, Request::FindExecutable);
        let beside = beside->Ok_0->Flag_0;
        let (v, _) = walk::ask_done(u, Request::FindCurrentDirectory);
        let (x, environment) = walk::ask(v, Request::ReadEnvironment);
        let environment = environment->Ok_0->Environment_0;
        let listed = config::listed_places(explicit is Some, beside, environment);
        promises::lemma_distinct_places(x, listed, listed.len(), Reach::Anything);
        lemma_candidates(x, explicit is Some, beside, environment);
        let (y, places) = config::candidates(x, explicit is Some, beside, environment);
        let places = places->Ok_0;
        lemma_found(y, places, 0);
        let (z, found) = config::found_from(y, places, 0);
        let found = found->Ok_0;
        assert(walk::leads_to(t, y));
        if let Some((place, path)) = found {
            let shown = choose|shown: String|
                #[trigger] walk::told(
                    y,
                    z,
                    Request::FindConfig(place),
                    Reply::Found(Some(shown)),
                ) && shown@ == path;
            reveal(config::file_loaded);
            let read = Request::ReadConfig(place);
            walk::lemma_told(z, read);
            let (a, text) = walk::ask(z, read);
            let toml = text->Ok_0->Text_0;
            let parse = Request::ParseConfig(place, toml@);
            walk::lemma_told(a, parse);
            let (b, reply) = walk::ask(a, parse);
            let images = reply->Ok_0->Images_0;
            assert(b == end);
            walk::lemma_told_inside(
                t,
                y,
                z,
                end,
                Request::FindConfig(place),
                Reply::Found(Some(shown)),
            );
            walk::lemma_told_inside(t, z, a, end, read, Reply::Text(toml));
            walk::lemma_told_inside(t, a, b, end, parse, Reply::Images(images));
            let raw = images@;
            let sorted = config::by_name(raw);
            config::law_images_are_ordered_by_name(raw);
            law_images_are_taken_as_configured(sorted);
            let source = Source { place, shown, toml, images };
            assert forall|k: int| 0 <= k < catalog.images.len() implies has_source(
                raw,
                #[trigger] catalog.images[k],
            ) by {
                assert(is_good_image(sorted[k]));
                assert(sorted.contains(sorted[k]));
                let i = choose|i: int|
                    config::is_last_of_its_name(raw, i) && raw[i] == sorted[k];
                assert(config::is_last_of_its_name(raw, i));
            }
            assert forall|i: int| #[trigger] config::is_last_of_its_name(raw, i) implies has_entry(
                catalog.images,
                raw[i],
            ) by {
                assert(sorted.contains(raw[i]));
                let k = sorted.index_of(raw[i]);
                assert(is_good_image(sorted[k]));
                assert(is_image_of(catalog.images[k], raw[i]));
            }
            assert(places.contains(place));
            assert(is_read_from(t, end, catalog, source));
        } else {
            assert(listed[0] == ConfigPlace::CurrentDirectory);
            config::law_only_repeated_paths_are_left_out(x, listed, listed.len());
            assert(places[0] == ConfigPlace::CurrentDirectory);
            walk::lemma_told_inside(
                t,
                y,
                z,
                end,
                Request::FindConfig(ConfigPlace::CurrentDirectory),
                Reply::Found(None),
            );
        }
    }
}

/// Whether a place is that of the user's own configuration: below the directory that
/// `XDG_CONFIG_HOME` names or, where it names none, below the one that `APPDATA` names on Windows and
/// `HOME` elsewhere.
pub open spec fn is_own_place(environment: Environment, place: ConfigPlace) -> bool {
    if config::is_set(environment.xdg) {
        place == ConfigPlace::Xdg
    } else if environment.windows {
        place == ConfigPlace::AppData && config::is_set(environment.appdata)
    } else {
        place == ConfigPlace::Home && config::is_set(environment.home)
    }
}

/// The place of the user's own configuration is found where there is one.
pub proof fn law_own_place_is_found(environment: Environment)
    ensures
        match config::user_place(environment) {
            Ok(place) => is_own_place(environment, place),
            Err(_) => forall|place: ConfigPlace| !#[trigger] is_own_place(environment, place),
        },
{
}

/// How early a place is looked in.
pub open spec fn rank(place: ConfigPlace) -> int {
    match place {
        ConfigPlace::Explicit => 0,
        ConfigPlace::CurrentDirectory => 1,
        ConfigPlace::BesideExecutable => 2,
        ConfigPlace::Xdg => 3,
        ConfigPlace::AppData => 4,
        ConfigPlace::Home => 4,
    }
}

/// Only the file that the user names is looked for where one is named. Otherwise the current
/// directory comes first, then the directory of the executable, then the places of the user's own
/// configuration, each where there is one.
pub proof fn law_places_are_looked_in_by_rank(
    explicit: bool,
    beside: bool,
    environment: Environment,
)
    ensures
        ({
            let places = config::listed_places(explicit, beside, environment);
            &&& places.contains(ConfigPlace::Explicit) == explicit
            &&& places.contains(ConfigPlace::CurrentDirectory) == !explicit
            &&& places.contains(ConfigPlace::BesideExecutable) == (!explicit && beside)
            &&& places.contains(ConfigPlace::Xdg) == (!explicit && config::is_set(environment.xdg))
            &&& places.contains(ConfigPlace::AppData) == (!explicit && environment.windows
                && config::is_set(environment.appdata))
            &&& places.contains(ConfigPlace::Home) == (!explicit && !environment.windows
                && config::is_set(environment.home))
            &&& forall|i: int, j: int|
                0 <= i < j < places.len() ==> rank(#[trigger] places[i]) < rank(
                    #[trigger] places[j],
                )
        }),
{
    let places = config::listed_places(explicit, beside, environment);
    if explicit {
        assert(places[0] == ConfigPlace::Explicit);
    } else {
        let n: int = if beside {
            2
        } else {
            1
        };
        let m: int = if config::is_set(environment.xdg) {
            n + 1
        } else {
            n
        };
        assert(places[0] == ConfigPlace::CurrentDirectory);
        if beside {
            assert(places[1] == ConfigPlace::BesideExecutable);
        }
        if config::is_set(environment.xdg) {
            assert(places[n] == ConfigPlace::Xdg);
        }
        if environment.windows && config::is_set(environment.appdata) {
            assert(places[m] == ConfigPlace::AppData);
        } else if !environment.windows && config::is_set(environment.home) {
            assert(places[m] == ConfigPlace::Home);
        }
    }
}

/// Whether the place of the user's own configuration was found between two points of a walk.
pub open spec fn did_find_own_place(t: Trail, u: Trail, place: ConfigPlace) -> bool {
    exists|environment: Environment|
        #[trigger] walk::told(
            t,
            u,
            Request::ReadEnvironment,
            Reply::Environment(environment),
        ) && is_own_place(environment, place)
}

/// Finding the place of the user's own configuration.
proof fn lemma_own_place(t: Trail)
    requires
        t.at >= 0,
    ensures
        config::user_place_found(t) matches (u, Ok(place)) ==> walk::leads_to(t, u)
            && did_find_own_place(t, u, place),
{
    if let (u, Ok(place)) = config::user_place_found(t) {
        reveal(config::user_place_found);
        walk::lemma_told(t, Request::ReadEnvironment);
        let environment = walk::ask(t, Request::ReadEnvironment).1->Ok_0->Environment_0;
        law_own_place_is_found(environment);
        assert(walk::told(t, u, Request::ReadEnvironment, Reply::Environment(environment)));
    }
}

/// What is found in a part of a walk is found in the whole.
proof fn lemma_own_place_inside(t: Trail, a: Trail, b: Trail, u: Trail, place: ConfigPlace)
    requires
        walk::leads_to(t, a),
        did_find_own_place(a, b, place),
        walk::leads_to(b, u),
    ensures
        did_find_own_place(t, u, place),
{
    let environment = choose|environment: Environment|
        #[trigger] walk::told(
            a,
            b,
            Request::ReadEnvironment,
            Reply::Environment(environment),
        ) && is_own_place(environment, place);
    walk::lemma_told_inside(
        t,
        a,
        b,
        u,
        Request::ReadEnvironment,
        Reply::Environment(environment),
    );
}

/// Whether the directory of the user's own configuration was printed between two points of a walk.
pub open spec fn did_print_directory(t: Trail, u: Trail, place: ConfigPlace, path: String) -> bool {
    &&& did_find_own_place(t, u, place)
    &&& walk::told(t, u, Request::ShowConfigDirectory(place), Reply::Text(path))
    &&& outcomes::did_ask(t, u, Request::Print(path@))
}

/// The directory that is printed is that of the user's own configuration.
pub proof fn law_directory_is_that_of_the_user(cli: Cli, t: Trail)
    requires
        t.at >= 0,
        cli.command is ConfigDirectory,
        commands::executed(t, cli).1 is Ok,
    ensures
        exists|place: ConfigPlace, path: String|
            did_print_directory(t, commands::executed(t, cli).0, place, path),
{
    let end = commands::executed(t, cli).0;
    reveal(commands::executed);
    reveal(config::directory_printed);
    lemma_own_place(t);
    let (u, place) = config::user_place_found(t);
    let place = place->Ok_0;
    let request = Request::ShowConfigDirectory(place);
    walk::lemma_told(u, request);
    let (v, reply) = walk::ask(u, request);
    let path = reply->Ok_0->Text_0;
    outcomes::lemma_act_asked(v, Request::Print(path@));
    outcomes::lemma_asked_inside(t, v, end, end, Request::Print(path@));
    walk::lemma_told_inside(t, u, v, end, request, Reply::Text(path));
    lemma_own_place_inside(t, t, u, end, place);
    assert(did_print_directory(t, end, place, path));
}

/// Whether a new configuration file was created between two points of a walk, and the template was
/// written to it.
pub open spec fn did_create(t: Trail, u: Trail, place: ConfigPlace, path: String) -> bool {
    &&& walk::told(t, u, Request::ShowConfig(place), Reply::Text(path))
    &&& walk::told(t, u, Request::CreateConfig(place), Reply::Done)
    &&& walk::told(
        t,
        u,
        Request::WriteConfig(place, config::CONFIG_TEMPLATE@),
        Reply::Done,
    )
    &&& outcomes::did_ask(t, u, Request::Print("ok: created "@ + path@))
}

/// A configuration file is created where the user says, or in the place of the user's own
/// configuration, and the path that is printed is that of this file.
pub proof fn law_configuration_is_created_where_it_belongs(cli: Cli, t: Trail)
    requires
        t.at >= 0,
        cli.command is ConfigInit,
        commands::executed(t, cli).1 is Ok,
    ensures
        exists|place: ConfigPlace, path: String|
            #[trigger] did_create(t, commands::executed(t, cli).0, place, path) && if cli.config is Some {
                place == ConfigPlace::Explicit
            } else {
                did_find_own_place(t, commands::executed(t, cli).0, place)
            },
{
    let end = commands::executed(t, cli).0;
    let explicit = cli.config is Some;
    reveal(commands::executed);
    reveal(commands::config_started);
    reveal(config::config_initialized);
    lemma_own_place(t);
    let (u, place) = if explicit {
        (t, Ok::<ConfigPlace, Halt>(ConfigPlace::Explicit))
    } else {
        config::user_place_found(t)
    };
    let place = place->Ok_0;
    let show = Request::ShowConfig(place);
    walk::lemma_told(u, show);
    let (v, reply) = walk::ask(u, show);
    let path = reply->Ok_0->Text_0;
    reveal(config::config_created);
    reveal(config::parent_created);
    let (x, _) = config::parent_created(v, place);
    assert(walk::leads_to(v, x));
    let create = Request::CreateConfig(place);
    walk::lemma_told(x, create);
    let (y, _) = walk::ask(x, create);
    let write = Request::WriteConfig(place, config::CONFIG_TEMPLATE@);
    walk::lemma_told(y, write);
    let (z, _) = walk::ask(y, write);
    let print = Request::Print("ok: created "@ + path@);
    outcomes::lemma_act_asked(z, print);
    outcomes::lemma_asked_inside(t, z, end, end, print);
    walk::lemma_told_inside(t, u, v, end, show, Reply::Text(path));
    walk::lemma_told_inside(t, x, y, end, create, Reply::Done);
    walk::lemma_told_inside(t, y, z, end, write, Reply::Done);
    if !explicit {
        lemma_own_place_inside(t, t, u, end, place);
    }
    assert(did_create(t, end, place, path));
}

/// Whether a text, in ten characters, tells where a file goes: the flash address, or that the file
/// has its own addresses.
pub open spec fn tells_where(shown: Seq<char>, addr: Option<u64>) -> bool {
    match addr {
        None => shown == "  in image"@,
        Some(addr) => shown.len() == 10 && number::number(shown) == Ok::<nat, Seq<char>>(
            if addr < 0x40_0000 {
                (addr + 0x40_0000) as nat
            } else {
                addr as nat
            },
        ),
    }
}

/// The line for a file of an image.
pub open spec fn part_line(shown: Seq<char>, path: Seq<char>, present: bool) -> Seq<char> {
    "  "@ + shown + "  "@ + path + if present {
        ""@
    } else {
        " (missing)"@
    }
}

/// Whether a file of an image was listed between two points of a walk: where it goes, its path, and
/// whether it is missing.
pub open spec fn did_list_part(t: Trail, u: Trail, part: PartEntry) -> bool {
    exists|shown: Seq<char>, present: bool|
        tells_where(shown, part.addr) && walk::told(
            t,
            u,
            Request::IsFile(part.path),
            Reply::Flag(present),
        ) && #[trigger] outcomes::did_ask(
            t,
            u,
            Request::Print(part_line(shown, part.path, present)),
        )
}

/// Whether an image was listed between two points of a walk: its name, with its description where it
/// has one, and each of its files.
pub open spec fn did_list_image(t: Trail, u: Trail, image: ImageEntry) -> bool {
    &&& outcomes::did_ask(
        t,
        u,
        Request::Print(
            "\n"@ + image.name + match image.description {
                Some(description) => " - "@ + description,
                None => ""@,
            },
        ),
    )
    &&& forall|i: int| 0 <= i < image.parts.len() ==> did_list_part(t, u, #[trigger] image.parts[i])
}

/// An address is shown in ten characters.
proof fn lemma_location(addr: Option<u64>)
    ensures
        commands::location(addr) matches Ok(shown) ==> tells_where(shown, addr),
{
    if let Ok(shown) = commands::location(addr) {
        if let Some(addr) = addr {
            let address = crate::target::flash_address(addr as nat)->Ok_0;
            number::law_printed_hex_is_read_back(address as u64);
            wording::law_hex8_has_ten_characters(address);
        }
    }
}

/// A file that is listed was listed.
proof fn lemma_part_listed(t: Trail, part: PartEntry)
    requires
        t.at >= 0,
        commands::part_listed(t, part).1 is Ok,
    ensures
        walk::leads_to(t, commands::part_listed(t, part).0),
        did_list_part(t, commands::part_listed(t, part).0, part),
{
    reveal(commands::part_listed);
    let end = commands::part_listed(t, part).0;
    lemma_location(part.addr);
    let shown = commands::location(part.addr)->Ok_0;
    let request = Request::IsFile(part.path);
    walk::lemma_told(t, request);
    let (u, reply) = walk::ask(t, request);
    let present = reply->Ok_0->Flag_0;
    walk::lemma_told_inside(t, t, u, end, request, Reply::Flag(present));
    let print = Request::Print(part_line(shown, part.path, present));
    outcomes::lemma_act_asked(u, print);
    outcomes::lemma_asked_inside(t, u, end, end, print);
}

/// What is listed in a part of a walk is listed in the whole.
proof fn lemma_part_listed_inside(t: Trail, a: Trail, b: Trail, u: Trail, part: PartEntry)
    requires
        walk::leads_to(t, a),
        did_list_part(a, b, part),
        walk::leads_to(b, u),
    ensures
        did_list_part(t, u, part),
{
    let (shown, present) = choose|shown: Seq<char>, present: bool|
        tells_where(shown, part.addr) && walk::told(
            a,
            b,
            Request::IsFile(part.path),
            Reply::Flag(present),
        ) && #[trigger] outcomes::did_ask(
            a,
            b,
            Request::Print(part_line(shown, part.path, present)),
        );
    walk::lemma_told_inside(t, a, b, u, Request::IsFile(part.path), Reply::Flag(present));
    let print = Request::Print(part_line(shown, part.path, present));
    outcomes::lemma_asked_inside(t, a, b, u, print);
}

/// Files that are listed were listed.
proof fn lemma_parts_listed(t: Trail, parts: Seq<PartEntry>, n: nat)
    requires
        t.at >= 0,
        n <= parts.len(),
        commands::parts_listed(t, parts, n).1 is Ok,
    ensures
        walk::leads_to(t, commands::parts_listed(t, parts, n).0),
        forall|i: int|
            0 <= i < n ==> did_list_part(
                t,
                commands::parts_listed(t, parts, n).0,
                #[trigger] parts[i],
            ),
    decreases n,
{
    if n > 0 {
        let m = (n - 1) as nat;
        lemma_parts_listed(t, parts, m);
        let (u, _) = commands::parts_listed(t, parts, m);
        lemma_part_listed(u, parts[m as int]);
        let (v, _) = commands::part_listed(u, parts[m as int]);
        assert forall|i: int| 0 <= i < n implies did_list_part(t, v, #[trigger] parts[i]) by {
            if i < m {
                lemma_part_listed_inside(t, t, u, v, parts[i]);
            } else {
                lemma_part_listed_inside(t, u, v, v, parts[i]);
            }
        }
    }
}

/// Images that are listed were listed.
proof fn lemma_images_listed(t: Trail, images: Seq<ImageEntry>, n: nat)
    requires
        t.at >= 0,
        n <= images.len(),
        commands::images_listed(t, images, n).1 is Ok,
    ensures
        walk::leads_to(t, commands::images_listed(t, images, n).0),
        forall|i: int|
            0 <= i < n ==> did_list_image(
                t,
                commands::images_listed(t, images, n).0,
                #[trigger] images[i],
            ),
    decreases n,
{
    if n > 0 {
        let m = (n - 1) as nat;
        lemma_images_listed(t, images, m);
        let (u, _) = commands::images_listed(t, images, m);
        let image = images[m as int];
        reveal(commands::image_listed);
        let print = Request::Print(commands::image_heading(image));
        outcomes::lemma_act_asked(u, print);
        let (x, _) = walk::ask_act(u, print);
        lemma_parts_listed(x, image.parts, image.parts.len());
        let (v, _) = commands::parts_listed(x, image.parts, image.parts.len());
        lemma_image_listed_inside(t, u, x, v, image);
        assert forall|i: int| 0 <= i < n implies did_list_image(t, v, #[trigger] images[i]) by {
            if i < m {
                lemma_listed_image_inside(t, u, v, images[i]);
            }
        }
    }
}

/// An image is listed with its heading and its files.
proof fn lemma_image_listed_inside(t: Trail, u: Trail, x: Trail, v: Trail, image: ImageEntry)
    requires
        walk::leads_to(t, u),
        outcomes::did_ask(u, x, Request::Print(commands::image_heading(image))),
        walk::leads_to(u, x),
        walk::leads_to(x, v),
        forall|i: int| 0 <= i < image.parts.len() ==> did_list_part(x, v, #[trigger] image.parts[i]),
    ensures
        did_list_image(t, v, image),
{
    outcomes::lemma_asked_inside(t, u, x, v, Request::Print(commands::image_heading(image)));
    assert forall|i: int| 0 <= i < image.parts.len() implies did_list_part(
        t,
        v,
        #[trigger] image.parts[i],
    ) by {
        lemma_part_listed_inside(t, x, v, v, image.parts[i]);
    }
}

/// An image that is listed stays listed.
proof fn lemma_listed_image_inside(t: Trail, u: Trail, v: Trail, image: ImageEntry)
    requires
        did_list_image(t, u, image),
        walk::leads_to(t, t),
        walk::leads_to(u, v),
    ensures
        did_list_image(t, v, image),
{
    outcomes::lemma_asked_inside(t, t, u, v, Request::Print(commands::image_heading(image)));
    assert forall|i: int| 0 <= i < image.parts.len() implies did_list_part(
        t,
        v,
        #[trigger] image.parts[i],
    ) by {
        lemma_part_listed_inside(t, t, u, v, image.parts[i]);
    }
}

/// The path of the configuration is printed, and all its images are listed, each with all its files:
/// where each goes, and whether it is missing.
pub proof fn law_every_image_is_listed(cli: Cli, t: Trail)
    requires
        t.at >= 0,
        cli.command is Images,
        commands::executed(t, cli).1 is Ok,
    ensures
        config::loaded(t, text::maybe(cli.config)).1 matches Ok(catalog) && outcomes::did_ask(
            t,
            commands::executed(t, cli).0,
            Request::Print(
                "Config: "@ + match catalog.path {
                    Some(path) => path,
                    None => "none"@,
                },
            ),
        ) && forall|i: int|
            0 <= i < catalog.images.len() ==> did_list_image(
                t,
                commands::executed(t, cli).0,
                #[trigger] catalog.images[i],
            ),
{
    let end = commands::executed(t, cli).0;
    reveal(commands::executed);
    reveal(commands::images);
    promises::lemma_loaded(t, text::maybe(cli.config), Reach::Anything);
    let (u, catalog) = config::loaded(t, text::maybe(cli.config));
    let images = catalog->Ok_0.images;
    let print = Request::Print(
        "Config: "@ + (match catalog->Ok_0.path {
            Some(path) => path,
            None => "none"@,
        }),
    );
    outcomes::lemma_act_asked(u, print);
    let (v, _) = walk::ask_act(u, print);
    if images.len() == 0 {
        outcomes::lemma_asked_inside(t, u, v, end, print);
    } else {
        lemma_images_listed(v, images, images.len());
        outcomes::lemma_asked_inside(t, u, v, end, print);
        assert forall|i: int| 0 <= i < images.len() implies did_list_image(
            t,
            end,
            #[trigger] images[i],
        ) by {
            assert(did_list_image(v, end, images[i]));
            outcomes::lemma_asked_inside(
                t,
                v,
                end,
                end,
                Request::Print(commands::image_heading(images[i])),
            );
            assert forall|k: int| 0 <= k < images[i].parts.len() implies did_list_part(
                t,
                end,
                #[trigger] images[i].parts[k],
            ) by {
                lemma_part_listed_inside(t, v, end, end, images[i].parts[k]);
            }
        }
    }
}

} // verus!
