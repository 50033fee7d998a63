//! Wallpapers: which files can be imported as pictures.

use vstd::prelude::*;
use vstd::string::StrSliceExecFns;
use vstd::string::StringExecFns;
use crate::paths::{extension_of, file_extension};
use vstd::hash_set::StringHashSet;
use crate::text::{chars_of, eq_ignore_ascii_case, run_eq_ignore_ascii_case, texts};

verus! {

/// A picture that was imported as a wallpaper.
#[derive(Debug, PartialEq, Eq)]
pub struct LocalWallpaper {
    pub id: String,
    pub name: String,
    pub file_path: String,
    pub file_name: String,
    pub file_type: String,
    pub file_size: i64,
    pub width: Option<i32>,
    pub height: Option<i32>,
    pub modified_at: String,
    pub created_at: String,
}

/// An extension that pictures have, in any case of its letters.
pub open spec fn image_extension(ext: Seq<char>) -> bool {
    ||| eq_ignore_ascii_case("png"@, ext)
    ||| eq_ignore_ascii_case("jpg"@, ext)
    ||| eq_ignore_ascii_case("jpeg"@, ext)
    ||| eq_ignore_ascii_case("gif"@, ext)
    ||| eq_ignore_ascii_case("bmp"@, ext)
    ||| eq_ignore_ascii_case("webp"@, ext)
    ||| eq_ignore_ascii_case("svg"@, ext)
}

/// A file of this name can be imported. A name with an extension must have
/// that of a picture. A name without one is taken where single files are
/// imported, and left out where a whole directory is.
pub open spec fn importable(file_name: Seq<char>, from_directory: bool) -> bool {
    match extension_of(file_name) {
        Some(ext) => image_extension(ext),
        None => !from_directory,
    }
}

/// The type recorded for a wallpaper: the extension of its file as it is
/// written, or `unknown`.
pub open spec fn wallpaper_type(file_name: Seq<char>) -> Seq<char> {
    match extension_of(file_name) {
        Some(ext) => ext,
        None => "unknown"@,
    }
}

fn same_word(word: &str, ext: &Vec<char>) -> (r: bool)
    ensures
        r == eq_ignore_ascii_case(word@, ext@),
{
    let w = chars_of(word);
    assert(w@.subrange(0, w.len() as int) =~= w@);
    run_eq_ignore_ascii_case(&w, 0, w.len(), ext)
}

/// Whether pictures have this extension.
pub fn is_image_extension(ext: &str) -> (r: bool)
    ensures
        r == image_extension(ext@),
{
    let e = chars_of(ext);
    same_word("png", &e) || same_word("jpg", &e) || same_word("jpeg", &e) || same_word("gif", &e) || same_word("bmp", &e)
        || same_word("webp", &e) || same_word("svg", &e)
}

/// Whether a file of this name can be imported.
pub fn is_importable(file_name: &str, from_directory: bool) -> (r: bool)
    ensures
        r == importable(file_name@, from_directory),
{
    match file_extension(file_name) {
        Some(ext) => is_image_extension(ext.as_str()),
        None => !from_directory,
    }
}

impl LocalWallpaper {
    /// The record of a file that is imported at `now`. Its name is that of
    /// the file, and its measures are not known yet.
    pub fn imported(id: String, file_path: String, file_name: String, file_size: i64, now: String) -> (w: Self)
        ensures
            w.id == id,
            w.name == file_name,
            w.file_path == file_path,
            w.file_name == file_name,
            w.file_type@ == wallpaper_type(file_name@),
            w.file_size == file_size,
            w.width is None,
            w.height is None,
            w.modified_at == now,
            w.created_at == now,
    {
        let file_type = match file_extension(file_name.as_str()) {
            Some(ext) => ext,
            None => String::from_str("unknown"),
        };
        LocalWallpaper {
            id,
            name: file_name.clone(),
            file_path,
            file_name,
            file_type,
            file_size,
            width: None,
            height: None,
            modified_at: now.clone(),
            created_at: now,
        }
    }
}


/// A category of the wallpaper station.
#[derive(Debug, PartialEq, Eq)]
pub struct WallpaperCategory {
    pub id: String,
    pub name: String,
    pub icon: Option<String>,
    pub color: Option<String>,
    pub count: Option<i32>,
}

/// A wallpaper of the wallpaper station.
#[derive(Debug, PartialEq, Eq)]
pub struct RemoteWallpaper {
    pub id: String,
    pub name: String,
    pub file_path: String,
    pub thumbnail_url: Option<String>,
    pub original_url: String,
    pub width: i32,
    pub height: i32,
    pub file_size: i64,
    pub category_id: Option<String>,
    pub category_name: Option<String>,
    pub author: Option<String>,
    pub tags: Vec<String>,
}

/// One page of the wallpapers of the station.
#[derive(Debug, PartialEq, Eq)]
pub struct WallpaperStationResponse {
    pub wallpapers: Vec<RemoteWallpaper>,
    pub total: i32,
    pub page: u32,
    pub page_size: u32,
    pub has_more: bool,
}

/// How setting a wallpaper went.
#[derive(Debug, PartialEq, Eq)]
pub struct SetWallpaperResult {
    pub success: bool,
    pub message: Option<String>,
    pub error_code: Option<String>,
}

/// A monitor that a wallpaper can be set on.
#[derive(Debug, PartialEq, Eq)]
pub struct MonitorInfo {
    pub id: String,
    pub name: String,
    pub width: i32,
    pub height: i32,
}

/// The wallpaper that is set, and how it is fitted to the screen.
#[derive(Debug, PartialEq, Eq)]
pub struct CurrentWallpaperInfo {
    pub file_path: String,
    pub fit_mode: String,
}

fn station_category(id: &str, name: &str, count: Option<i32>) -> (category: WallpaperCategory)
    ensures
        category.id@ == id@,
        category.name@ == name@,
        category.icon is None,
        category.color is None,
        category.count == count,
{
    WallpaperCategory { id: String::from_str(id), name: String::from_str(name), icon: None, color: None, count }
}

/// The categories of the wallpaper station: the id and the name of each,
/// and the number of wallpapers in it where that is given.
pub open spec fn station_catalogue() -> Seq<(Seq<char>, Seq<char>, Option<i32>)> {
    seq![
        ("all"@, "全部"@, None),
        ("hot"@, "热门"@, Some(100i32)),
        ("new"@, "最新"@, Some(50i32)),
        ("scenery"@, "风景"@, Some(200i32)),
        ("anime"@, "动漫"@, Some(150i32)),
        ("abstract"@, "抽象"@, Some(80i32)),
    ]
}

/// The categories of the wallpaper station.
pub fn station_categories() -> (categories: Vec<WallpaperCategory>)
    ensures
        categories.len() == station_catalogue().len(),
        forall|i: int|
            0 <= i < categories.len() ==> {
                &&& (#[trigger] categories[i]).id@ == station_catalogue()[i].0
                &&& categories[i].name@ == station_catalogue()[i].1
                &&& categories[i].count == station_catalogue()[i].2
                &&& categories[i].icon is None
                &&& categories[i].color is None
            },
{
    let mut categories: Vec<WallpaperCategory> = Vec::new();
    categories.push(station_category("all", "全部", None));
    categories.push(station_category("hot", "热门", Some(100)));
    categories.push(station_category("new", "最新", Some(50)));
    categories.push(station_category("scenery", "风景", Some(200)));
    categories.push(station_category("anime", "动漫", Some(150)));
    categories.push(station_category("abstract", "抽象", Some(80)));
    categories
}

/// A page of the station without wallpapers, after which no page follows.
pub fn empty_page(page: u32, page_size: u32) -> (response: WallpaperStationResponse)
    ensures
        response.wallpapers@.len() == 0,
        response.total == 0,
        response.page == page,
        response.page_size == page_size,
        !response.has_more,
{
    WallpaperStationResponse { wallpapers: Vec::new(), total: 0, page, page_size, has_more: false }
}

/// The record of a wallpaper that was downloaded at `now`.
pub fn downloaded(id: String, now: String) -> (w: LocalWallpaper)
    ensures
        w.id == id,
        w.name@ == "下载的壁纸"@,
        w.file_path@ == Seq::<char>::empty(),
        w.file_name@ == "wallpaper.png"@,
        w.file_type@ == "png"@,
        w.file_size == 0,
        w.width is None,
        w.height is None,
        w.modified_at == now,
        w.created_at == now,
{
    LocalWallpaper {
        id,
        name: String::from_str("下载的壁纸"),
        file_path: String::new(),
        file_name: String::from_str("wallpaper.png"),
        file_type: String::from_str("png"),
        file_size: 0,
        width: None,
        height: None,
        modified_at: now.clone(),
        created_at: now,
    }
}

/// What is reported when a wallpaper was set.
pub fn wallpaper_was_set() -> (result: SetWallpaperResult)
    ensures
        result.success,
        result.message is Some,
        result.message->0@ == "壁纸设置成功"@,
        result.error_code is None,
{
    SetWallpaperResult { success: true, message: Some(String::from_str("壁纸设置成功")), error_code: None }
}

/// The monitors that a wallpaper can be set on: the primary one.
pub fn monitors() -> (list: Vec<MonitorInfo>)
    ensures
        list.len() == 1,
        list[0].id@ == "primary"@,
        list[0].name@ == "主显示器"@,
        list[0].width == 1920,
        list[0].height == 1080,
{
    let mut list: Vec<MonitorInfo> = Vec::new();
    list.push(
        MonitorInfo { id: String::from_str("primary"), name: String::from_str("主显示器"), width: 1920, height: 1080 },
    );
    list
}

/// The wallpaper at `file_path` as the one that is set; it fills the screen.
pub fn current_wallpaper(file_path: String) -> (info: CurrentWallpaperInfo)
    ensures
        info.file_path == file_path,
        info.fit_mode@ == "fill"@,
{
    CurrentWallpaperInfo { file_path, fit_mode: String::from_str("fill") }
}


/// Something that is offered for import: where it lies, what it is called,
/// and whether it is a regular file.
#[derive(Debug, PartialEq, Eq)]
pub struct ImportCandidate {
    pub path: String,
    pub file_name: String,
    pub is_file: bool,
}

/// What an `ImportCandidate` holds, its strings as texts.
pub struct ImportCandidateView {
    pub path: Seq<char>,
    pub file_name: Seq<char>,
    pub is_file: bool,
}

impl View for ImportCandidate {
    type V = ImportCandidateView;

    open spec fn view(&self) -> ImportCandidateView {
        ImportCandidateView { path: self.path@, file_name: self.file_name@, is_file: self.is_file }
    }
}

/// The views of a list of candidates.
pub open spec fn candidate_views(candidates: Seq<ImportCandidate>) -> Seq<ImportCandidateView> {
    candidates.map_values(|c: ImportCandidate| c@)
}

/// One of the chosen candidates lies at this path.
pub open spec fn chosen_at(candidates: Seq<ImportCandidateView>, chosen: Seq<int>, path: Seq<char>) -> bool {
    exists|k: int| 0 <= k < chosen.len() && candidates[#[trigger] chosen[k]].path == path
}

/// The places of the candidates that are imported, in their order: the
/// regular files with an importable name whose path is neither stored
/// already nor that of a candidate chosen before.
pub open spec fn import_choice(
    candidates: Seq<ImportCandidateView>,
    stored: Seq<Seq<char>>,
    from_directory: bool,
) -> Seq<int>
    decreases candidates.len(),
{
    if candidates.len() == 0 {
        Seq::empty()
    } else {
        let front = import_choice(candidates.drop_last(), stored, from_directory);
        let c = candidates.last();
        if c.is_file && importable(c.file_name, from_directory) && !stored.contains(c.path) && !chosen_at(
            candidates.drop_last(),
            front,
            c.path,
        ) {
            front.push(candidates.len() - 1)
        } else {
            front
        }
    }
}

/// The places as numbers.
pub open spec fn places(chosen: Seq<usize>) -> Seq<int> {
    chosen.map_values(|i: usize| i as int)
}

/// Which of the candidates are imported: the places, in order, of the
/// regular files with an importable name whose path is neither among
/// `stored_paths` nor that of a candidate chosen before.
pub fn files_to_import(candidates: &Vec<ImportCandidate>, stored_paths: &Vec<String>, from_directory: bool) -> (chosen: Vec<
    usize,
>)
    ensures
        places(chosen@) == import_choice(candidate_views(candidates@), texts(stored_paths@), from_directory),
{
    let ghost views = candidate_views(candidates@);
    let ghost stored = texts(stored_paths@);
    let mut seen = StringHashSet::new();
    let mut j: usize = 0;
    while j < stored_paths.len()
        invariant
            j <= stored_paths.len(),
            stored == texts(stored_paths@),
            forall|p: Seq<char>| #[trigger] seen@.contains(p) <==> stored.take(j as int).contains(p),
        decreases stored_paths.len() - j,
    {
        seen.insert(stored_paths[j].clone());
        proof {
            let longer = stored.take(j + 1);
            let shorter = stored.take(j as int);
            assert(longer =~= shorter.push(stored_paths[j as int]@));
            assert forall|p: Seq<char>| #[trigger] seen@.contains(p) <==> longer.contains(p) by {
                vstd::seq_lib::lemma_seq_contains_after_push(shorter, stored_paths[j as int]@, p);
            }
        }
        j = j + 1;
    }
    assert(stored.take(stored_paths.len() as int) =~= stored);
    let mut chosen: Vec<usize> = Vec::new();
    let mut i: usize = 0;
    assert(views.take(0) =~= Seq::<ImportCandidateView>::empty());
    assert(places(chosen@) =~= Seq::<int>::empty());
    while i < candidates.len()
        invariant
            i <= candidates.len(),
            views == candidate_views(candidates@),
            stored == texts(stored_paths@),
            places(chosen@) == import_choice(views.take(i as int), stored, from_directory),
            forall|k: int| 0 <= k < chosen.len() ==> (#[trigger] chosen[k]) < i,
            forall|p: Seq<char>| #[trigger]
                seen@.contains(p) <==> stored.contains(p) || chosen_at(views.take(i as int), places(chosen@), p),
        decreases candidates.len() - i,
    {
        let ghost before = views.take(i as int);
        let ghost after = views.take(i + 1);
        let ghost front = places(chosen@);
        let ghost old_chosen = chosen@;
        let ghost seen_before = seen@;
        let c = &candidates[i];
        proof {
            assert(after.drop_last() =~= before);
            assert(after.last() == c@);
            assert(seen_before.contains(c@.path) <==> stored.contains(c@.path) || chosen_at(before, front, c@.path));
            assert forall|p: Seq<char>| chosen_at(after, front, p) <==> chosen_at(before, front, p) by {
                if chosen_at(after, front, p) {
                    let k = choose|k: int| 0 <= k < front.len() && after[#[trigger] front[k]].path == p;
                    assert(front[k] == old_chosen[k]);
                    assert(after[front[k]] == before[front[k]]);
                }
                if chosen_at(before, front, p) {
                    let k = choose|k: int| 0 <= k < front.len() && before[#[trigger] front[k]].path == p;
                    assert(front[k] == old_chosen[k]);
                    assert(after[front[k]] == before[front[k]]);
                }
            }
        }
        let taken = c.is_file && is_importable(c.file_name.as_str(), from_directory) && !seen.contains(c.path.as_str());
        if taken {
            seen.insert(c.path.clone());
            chosen.push(i);
            proof {
                let now = places(chosen@);
                assert(now =~= front.push(i as int));
                assert forall|k: int| 0 <= k < chosen.len() implies (#[trigger] chosen[k]) < i + 1 by {
                    if k < old_chosen.len() {
                        assert(chosen[k] == old_chosen[k]);
                    }
                }
                assert forall|p: Seq<char>| chosen_at(after, now, p) <==> chosen_at(after, front, p) || p == c@.path by {
                    if chosen_at(after, now, p) {
                        let k = choose|k: int| 0 <= k < now.len() && after[#[trigger] now[k]].path == p;
                        if k < front.len() {
                            assert(now[k] == front[k]);
                        } else {
                            assert(now[k] == i);
                        }
                    }
                    if chosen_at(after, front, p) {
                        let k = choose|k: int| 0 <= k < front.len() && after[#[trigger] front[k]].path == p;
                        assert(now[k] == front[k]);
                    }
                    if p == c@.path {
                        assert(now[now.len() - 1] == i);
                        assert(after[now[now.len() - 1]].path == p);
                    }
                }
            }
        }
        assert forall|p: Seq<char>| #[trigger]
            seen@.contains(p) <==> stored.contains(p) || chosen_at(after, places(chosen@), p) by {
            assert(seen_before.contains(p) <==> stored.contains(p) || chosen_at(before, front, p));
            assert(chosen_at(after, front, p) <==> chosen_at(before, front, p));
            if taken {
                assert(chosen_at(after, places(chosen@), p) <==> chosen_at(after, front, p) || p == c@.path);
                assert(seen@ == seen_before.insert(c@.path));
            } else {
                assert(places(chosen@) == front);
            }
        }
        i = i + 1;
    }
    assert(views.take(candidates.len() as int) =~= views);
    chosen
}

} // verus!
