//! Environment variables as the application shows them: how they are
//! sorted into categories, named, validated and changed.

use vstd::prelude::*;
use vstd::string::StrSliceExecFns;
use vstd::string::StringExecFns;
use crate::error::AppError;
use crate::models::clone_option;
use crate::text::{
    alphabetic, alphanumeric, chars_eq, chars_le, chars_of, contains_chars, contains_text, is_alphabetic, is_alphanumeric,
    text_le, to_uppercase, uppercase,
};

verus! {

/// The text of an optional string.
pub open spec fn opt_text(o: Option<String>) -> Option<Seq<char>> {
    match o {
        Some(s) => Some(s@),
        None => None,
    }
}

/// An environment variable as the application shows it.
#[derive(Debug, PartialEq, Eq)]
pub struct EnvironmentVariable {
    pub id: String,
    pub name: String,
    pub value: String,
    pub description: Option<String>,
    pub category: String,
    pub is_system: bool,
    pub is_modified: bool,
    pub created_at: i64,
    pub modified_at: i64,
}

/// What an `EnvironmentVariable` holds, its strings as texts.
pub struct EnvVarView {
    pub id: Seq<char>,
    pub name: Seq<char>,
    pub value: Seq<char>,
    pub description: Option<Seq<char>>,
    pub category: Seq<char>,
    pub is_system: bool,
    pub is_modified: bool,
    pub created_at: i64,
    pub modified_at: i64,
}

impl View for EnvironmentVariable {
    type V = EnvVarView;

    open spec fn view(&self) -> EnvVarView {
        EnvVarView {
            id: self.id@,
            name: self.name@,
            value: self.value@,
            description: opt_text(self.description),
            category: self.category@,
            is_system: self.is_system,
            is_modified: self.is_modified,
            created_at: self.created_at,
            modified_at: self.modified_at,
        }
    }
}

impl Clone for EnvironmentVariable {
    fn clone(&self) -> (r: Self)
        ensures
            r == *self,
    {
        EnvironmentVariable {
            id: self.id.clone(),
            name: self.name.clone(),
            value: self.value.clone(),
            description: clone_option(&self.description),
            category: self.category.clone(),
            is_system: self.is_system,
            is_modified: self.is_modified,
            created_at: self.created_at,
            modified_at: self.modified_at,
        }
    }
}

/// The views of a list of variables.
pub open spec fn var_views(vars: Seq<EnvironmentVariable>) -> Seq<EnvVarView> {
    vars.map_values(|v: EnvironmentVariable| v@)
}

/// What a caller gives to have a variable made.
#[derive(Debug, PartialEq, Eq)]
pub struct CreateEnvVarRequest {
    pub name: String,
    pub value: String,
    pub description: Option<String>,
    pub category: String,
}

/// The fields of a variable that a caller wants changed.
#[derive(Debug, PartialEq, Eq)]
pub struct UpdateEnvVarRequest {
    pub value: Option<String>,
    pub description: Option<String>,
    pub category: Option<String>,
}

/// A category of variables with the number of variables in it.
#[derive(Debug, PartialEq, Eq)]
pub struct EnvVarCategory {
    pub name: String,
    pub count: i32,
    pub color: Option<String>,
}

/// What an `EnvVarCategory` holds, its strings as texts.
pub struct EnvVarCategoryView {
    pub name: Seq<char>,
    pub count: i32,
    pub color: Option<Seq<char>>,
}

impl View for EnvVarCategory {
    type V = EnvVarCategoryView;

    open spec fn view(&self) -> EnvVarCategoryView {
        EnvVarCategoryView { name: self.name@, count: self.count, color: opt_text(self.color) }
    }
}

/// The views of a list of categories.
pub open spec fn category_views(categories: Seq<EnvVarCategory>) -> Seq<EnvVarCategoryView> {
    categories.map_values(|c: EnvVarCategory| c@)
}

/// Whether a name can be given to a new variable, and if not, why.
#[derive(Debug, PartialEq, Eq)]
pub struct ValidateNameResult {
    pub valid: bool,
    pub error: Option<String>,
}

/// What a request to delete variables comes to: the names of the variables
/// to remove, in order, and the error that ended the request, if one did.
#[derive(Debug, PartialEq, Eq)]
pub struct EnvVarDeletion {
    pub removed: Vec<String>,
    pub error: Option<AppError>,
}

/// The rules of the environment variables.
pub struct EnvVarService;

/// The categories that variables are sorted into, each with its colour.
pub open spec fn predefined_categories() -> Seq<(Seq<char>, Option<Seq<char>>)> {
    seq![
        ("路径相关"@, Some("#1677ff"@)),
        ("开发工具"@, Some("#52c41a"@)),
        ("系统配置"@, Some("#fa8c16"@)),
        ("数据库"@, Some("#722ed1"@)),
        ("应用配置"@, Some("#eb2f96"@)),
        ("编程语言"@, Some("#13c2c2"@)),
        ("其他"@, None),
    ]
}

/// The colour of the first category of this name from place `i` on.
pub open spec fn color_from(table: Seq<(Seq<char>, Option<Seq<char>>)>, name: Seq<char>, i: int) -> Option<Seq<char>>
    decreases table.len() - i,
{
    if i < 0 || i >= table.len() {
        None
    } else if table[i].0 == name {
        table[i].1
    } else {
        color_from(table, name, i + 1)
    }
}

/// The colour of a category: that of the predefined category of its name.
pub open spec fn color_of(name: Seq<char>) -> Option<Seq<char>> {
    color_from(predefined_categories(), name, 0)
}

/// The texts of a table of names and colours.
pub open spec fn table_texts(table: Seq<(&'static str, Option<&'static str>)>) -> Seq<(Seq<char>, Option<Seq<char>>)> {
    table.map_values(
        |row: (&'static str, Option<&'static str>)|
            (
                row.0@,
                match row.1 {
                    Some(color) => Some(color@),
                    None => None,
                },
            ),
    )
}

/// The category that a variable of this name is sorted into, by the words
/// that its name holds in upper case.
pub open spec fn auto_category_of(name: Seq<char>) -> Seq<char> {
    let upper = uppercase(name);
    if contains_text(upper, "PATH"@) || contains_text(upper, "HOME"@) {
        "路径相关"@
    } else if contains_text(upper, "JAVA"@) || contains_text(upper, "PYTHON"@) || contains_text(upper, "NODE"@)
        || contains_text(upper, "RUST"@) {
        "编程语言"@
    } else if contains_text(upper, "GIT"@) || contains_text(upper, "DOCKER"@) || contains_text(upper, "K8S"@) {
        "开发工具"@
    } else if contains_text(upper, "MYSQL"@) || contains_text(upper, "POSTGRES"@) || contains_text(upper, "MONGO"@)
        || contains_text(upper, "REDIS"@) {
        "数据库"@
    } else if contains_text(upper, "APP"@) || contains_text(upper, "CONFIG"@) {
        "应用配置"@
    } else if contains_text(upper, "TEMP"@) || contains_text(upper, "TMP"@) || contains_text(upper, "CACHE"@) {
        "系统配置"@
    } else {
        "其他"@
    }
}

/// The id of a variable: its name behind `sys_` or `user_`.
pub open spec fn id_of(name: Seq<char>, is_system: bool) -> Seq<char> {
    if is_system {
        "sys_"@ + name
    } else {
        "user_"@ + name
    }
}

/// A variable of the system's environment as it is shown.
pub open spec fn system_var(name: Seq<char>, value: Seq<char>, now: i64) -> EnvVarView {
    EnvVarView {
        id: id_of(name, true),
        name,
        value,
        description: None,
        category: auto_category_of(name),
        is_system: true,
        is_modified: false,
        created_at: now,
        modified_at: now,
    }
}

/// The variables of an environment as they are shown, in its order.
pub open spec fn system_vars(pairs: Seq<(String, String)>, now: i64) -> Seq<EnvVarView> {
    Seq::new(pairs.len(), |i: int| system_var(pairs[i].0@, pairs[i].1@, now))
}

/// `a` is shown before `b`, or may be: its category comes first, or the
/// categories are the same and its name comes first.
pub open spec fn var_le(a: EnvVarView, b: EnvVarView) -> bool {
    if a.category == b.category {
        text_le(a.name, b.name)
    } else {
        text_le(a.category, b.category)
    }
}

/// The list with `v` put behind the last variable that is shown before it.
pub open spec fn insert_var(sorted: Seq<EnvVarView>, v: EnvVarView) -> Seq<EnvVarView>
    decreases sorted.len(),
{
    if sorted.len() == 0 {
        seq![v]
    } else if var_le(sorted.last(), v) {
        sorted.push(v)
    } else {
        insert_var(sorted.drop_last(), v).push(sorted.last())
    }
}

/// The variables by category and, within a category, by name.
pub open spec fn sorted_vars(vars: Seq<EnvVarView>) -> Seq<EnvVarView>
    decreases vars.len(),
{
    if vars.len() == 0 {
        Seq::empty()
    } else {
        insert_var(sorted_vars(vars.drop_last()), vars.last())
    }
}

/// The place of the first count for this category from place `i` on, or -1.
pub open spec fn tally_position(tallies: Seq<(Seq<char>, nat)>, name: Seq<char>, i: int) -> int
    decreases tallies.len() - i,
{
    if i < 0 || i >= tallies.len() {
        -1
    } else if tallies[i].0 == name {
        i
    } else {
        tally_position(tallies, name, i + 1)
    }
}

/// The categories of the variables, in the order in which they first occur,
/// each with the number of variables in it.
pub open spec fn tally(vars: Seq<EnvVarView>) -> Seq<(Seq<char>, nat)>
    decreases vars.len(),
{
    if vars.len() == 0 {
        Seq::empty()
    } else {
        let front = tally(vars.drop_last());
        let name = vars.last().category;
        let k = tally_position(front, name, 0);
        if k < 0 {
            front.push((name, 1nat))
        } else {
            front.update(k, (name, front[k].1 + 1))
        }
    }
}

/// The list with `t` put behind the last count that is not smaller than its own.
pub open spec fn insert_tally(sorted: Seq<(Seq<char>, nat)>, t: (Seq<char>, nat)) -> Seq<(Seq<char>, nat)>
    decreases sorted.len(),
{
    if sorted.len() == 0 {
        seq![t]
    } else if sorted.last().1 >= t.1 {
        sorted.push(t)
    } else {
        insert_tally(sorted.drop_last(), t).push(sorted.last())
    }
}

/// The counts from the highest down; equal counts keep their order.
pub open spec fn sorted_tallies(tallies: Seq<(Seq<char>, nat)>) -> Seq<(Seq<char>, nat)>
    decreases tallies.len(),
{
    if tallies.len() == 0 {
        Seq::empty()
    } else {
        insert_tally(sorted_tallies(tallies.drop_last()), tallies.last())
    }
}

/// A count as the number that is shown: counts above `i32::MAX` are shown as
/// `i32::MAX`.
pub open spec fn shown_count(n: nat) -> i32 {
    if n > i32::MAX {
        i32::MAX
    } else {
        n as i32
    }
}

/// The categories of the variables with their counts and colours, the
/// largest category first.
pub open spec fn categories_of(vars: Seq<EnvVarView>) -> Seq<EnvVarCategoryView> {
    sorted_tallies(tally(vars)).map_values(
        |t: (Seq<char>, nat)| EnvVarCategoryView { name: t.0, count: shown_count(t.1), color: color_of(t.0) },
    )
}

/// A character that may begin the name of a variable.
pub open spec fn may_begin_name(c: char) -> bool {
    alphabetic(c) || c == '_'
}

/// A character that the name of a variable may hold.
pub open spec fn may_be_in_name(c: char) -> bool {
    alphanumeric(c) || c == '_'
}

/// Why a name cannot be given to a new variable, if it cannot; `exists`
/// says whether the environment has a variable of this name.
pub open spec fn name_error(name: Seq<char>, exists: bool) -> Option<Seq<char>> {
    if name.len() == 0 {
        Some("环境变量名称不能为空"@)
    } else if !may_begin_name(name[0]) {
        Some("环境变量名称必须以字母或下划线开头"@)
    } else if !(forall|i: int| 0 <= i < name.len() ==> may_be_in_name(#[trigger] name[i])) {
        Some("环境变量名称只能包含字母、数字和下划线"@)
    } else if exists {
        Some("环境变量 '"@ + name + "' 已存在"@)
    } else {
        None
    }
}

/// The place of the first variable with this id from place `i` on, or -1.
pub open spec fn var_position(vars: Seq<EnvVarView>, id: Seq<char>, i: int) -> int
    decreases vars.len() - i,
{
    if i < 0 || i >= vars.len() {
        -1
    } else if vars[i].id == id {
        i
    } else {
        var_position(vars, id, i + 1)
    }
}

/// The variable after an update: the value, the description and the
/// category are taken from the request where it gives them.
pub open spec fn updated_var(v: EnvVarView, req: UpdateEnvVarRequest, now: i64) -> EnvVarView {
    EnvVarView {
        id: v.id,
        name: v.name,
        value: if req.value is Some {
            req.value->0@
        } else {
            v.value
        },
        description: if req.description is Some {
            opt_text(req.description)
        } else {
            v.description
        },
        category: if req.category is Some {
            req.category->0@
        } else {
            v.category
        },
        is_system: v.is_system,
        is_modified: req.value is Some || v.is_modified,
        created_at: v.created_at,
        modified_at: now,
    }
}

/// The variable after it was written to the system.
pub open spec fn synced_var(v: EnvVarView, now: i64) -> EnvVarView {
    EnvVarView { is_modified: false, modified_at: now, ..v }
}

/// The place of the first variable with this id whose name is not among
/// those removed, from place `i` on, or -1.
pub open spec fn live_position(vars: Seq<EnvVarView>, removed: Seq<Seq<char>>, id: Seq<char>, i: int) -> int
    decreases vars.len() - i,
{
    if i < 0 || i >= vars.len() {
        -1
    } else if vars[i].id == id && !removed.contains(vars[i].name) {
        i
    } else {
        live_position(vars, removed, id, i + 1)
    }
}

/// Why a request to delete ended early.
pub enum DeletionProblem {
    /// No variable has the id.
    Unknown,
    /// The variable belongs to the system.
    System,
}

/// What deleting the variables of these ids, one after the other, comes to:
/// the names removed, and the problem that ended it, if one did. A variable
/// that was removed is gone for the ids that follow.
pub open spec fn deletion_of(vars: Seq<EnvVarView>, ids: Seq<Seq<char>>) -> (Seq<Seq<char>>, Option<DeletionProblem>)
    decreases ids.len(),
{
    if ids.len() == 0 {
        (Seq::empty(), None)
    } else {
        let (removed, problem) = deletion_of(vars, ids.drop_last());
        if problem is Some {
            (removed, problem)
        } else {
            let k = live_position(vars, removed, ids.last(), 0);
            if k < 0 {
                (removed, Some(DeletionProblem::Unknown))
            } else if vars[k].is_system {
                (removed, Some(DeletionProblem::System))
            } else {
                (removed.push(vars[k].name), None)
            }
        }
    }
}

/// The text of the error that a problem is reported with.
pub open spec fn problem_text(problem: DeletionProblem) -> Seq<char> {
    match problem {
        DeletionProblem::Unknown => "环境变量不存在"@,
        DeletionProblem::System => "不能删除系统环境变量"@,
    }
}

proof fn lemma_insert_var_position(sorted: Seq<EnvVarView>, v: EnvVarView, pos: int)
    requires
        0 <= pos <= sorted.len(),
        forall|k: int| pos <= k < sorted.len() ==> !var_le(#[trigger] sorted[k], v),
        pos == 0 || var_le(sorted[pos - 1], v),
    ensures
        insert_var(sorted, v) == sorted.insert(pos, v),
    decreases sorted.len(),
{
    if sorted.len() == 0 {
        assert(seq![v] =~= sorted.insert(pos, v));
    } else if pos == sorted.len() {
        assert(sorted.push(v) =~= sorted.insert(pos, v));
    } else {
        let front = sorted.drop_last();
        assert(!var_le(sorted[sorted.len() - 1], v));
        assert forall|k: int| pos <= k < front.len() implies !var_le(#[trigger] front[k], v) by {
            assert(front[k] == sorted[k]);
        }
        lemma_insert_var_position(front, v, pos);
        assert(front.insert(pos, v).push(sorted.last()) =~= sorted.insert(pos, v));
    }
}

proof fn lemma_insert_tally_position(sorted: Seq<(Seq<char>, nat)>, t: (Seq<char>, nat), pos: int)
    requires
        0 <= pos <= sorted.len(),
        forall|k: int| pos <= k < sorted.len() ==> (#[trigger] sorted[k]).1 < t.1,
        pos == 0 || sorted[pos - 1].1 >= t.1,
    ensures
        insert_tally(sorted, t) == sorted.insert(pos, t),
    decreases sorted.len(),
{
    if sorted.len() == 0 {
        assert(seq![t] =~= sorted.insert(pos, t));
    } else if pos == sorted.len() {
        assert(sorted.push(t) =~= sorted.insert(pos, t));
    } else {
        let front = sorted.drop_last();
        assert(sorted[sorted.len() - 1].1 < t.1);
        assert forall|k: int| pos <= k < front.len() implies (#[trigger] front[k]).1 < t.1 by {
            assert(front[k] == sorted[k]);
        }
        lemma_insert_tally_position(front, t, pos);
        assert(front.insert(pos, t).push(sorted.last()) =~= sorted.insert(pos, t));
    }
}

/// The texts and counts of a list of counted names.
pub open spec fn tally_texts(tallies: Seq<(String, usize)>) -> Seq<(Seq<char>, nat)> {
    tallies.map_values(|t: (String, usize)| (t.0@, t.1 as nat))
}

fn holds(upper: &Vec<char>, word: &str) -> (r: bool)
    ensures
        r == contains_text(upper@, word@),
{
    let needle = chars_of(word);
    contains_chars(upper, &needle)
}

fn shows_before(a: &EnvironmentVariable, b: &EnvironmentVariable) -> (r: bool)
    ensures
        r == var_le(a@, b@),
{
    let category_a = chars_of(a.category.as_str());
    let category_b = chars_of(b.category.as_str());
    if chars_eq(&category_a, &category_b) {
        let name_a = chars_of(a.name.as_str());
        let name_b = chars_of(b.name.as_str());
        chars_le(&name_a, &name_b)
    } else {
        chars_le(&category_a, &category_b)
    }
}

fn find_var(vars: &Vec<EnvironmentVariable>, id: &String) -> (found: Option<usize>)
    ensures
        match found {
            Some(k) => k < vars.len() && var_position(var_views(vars@), id@, 0) == k,
            None => var_position(var_views(vars@), id@, 0) == -1,
        },
{
    let ghost views = var_views(vars@);
    let mut i: usize = 0;
    while i < vars.len()
        invariant
            i <= vars.len(),
            views == var_views(vars@),
            var_position(views, id@, 0) == var_position(views, id@, i as int),
        decreases vars.len() - i,
    {
        assert(views[i as int] == vars[i as int]@);
        if vars[i].id == *id {
            return Some(i);
        }
        i = i + 1;
    }
    None
}

fn was_removed(removed: &Vec<String>, name: &String) -> (r: bool)
    ensures
        r == crate::text::texts(removed@).contains(name@),
{
    let mut i: usize = 0;
    while i < removed.len()
        invariant
            i <= removed.len(),
            forall|k: int| 0 <= k < i ==> crate::text::texts(removed@)[k] != name@,
        decreases removed.len() - i,
    {
        assert(crate::text::texts(removed@)[i as int] == removed[i as int]@);
        if removed[i] == *name {
            return true;
        }
        i = i + 1;
    }
    false
}

fn find_live(vars: &Vec<EnvironmentVariable>, removed: &Vec<String>, id: &String) -> (found: Option<usize>)
    ensures
        match found {
            Some(k) => k < vars.len() && live_position(var_views(vars@), crate::text::texts(removed@), id@, 0) == k,
            None => live_position(var_views(vars@), crate::text::texts(removed@), id@, 0) == -1,
        },
{
    let ghost views = var_views(vars@);
    let ghost gone = crate::text::texts(removed@);
    let mut i: usize = 0;
    while i < vars.len()
        invariant
            i <= vars.len(),
            views == var_views(vars@),
            gone == crate::text::texts(removed@),
            live_position(views, gone, id@, 0) == live_position(views, gone, id@, i as int),
        decreases vars.len() - i,
    {
        assert(views[i as int] == vars[i as int]@);
        if vars[i].id == *id && !was_removed(removed, &vars[i].name) {
            return Some(i);
        }
        i = i + 1;
    }
    None
}

fn invalid(detail: &str) -> (e: AppError)
    ensures
        e is InvalidInput,
        e->InvalidInput_0@ == detail@,
{
    AppError::invalid_input(detail)
}

impl EnvVarService {
    /// The categories that variables are sorted into, each with its colour.
    pub fn get_predefined_categories() -> (table: Vec<(&'static str, Option<&'static str>)>)
        ensures
            table_texts(table@) == predefined_categories(),
    {
        let table = vec![
            ("路径相关", Some("#1677ff")),
            ("开发工具", Some("#52c41a")),
            ("系统配置", Some("#fa8c16")),
            ("数据库", Some("#722ed1")),
            ("应用配置", Some("#eb2f96")),
            ("编程语言", Some("#13c2c2")),
            ("其他", None),
        ];
        assert(table_texts(table@) =~= predefined_categories());
        table
    }

    /// The category that a variable of this name is sorted into.
    pub fn auto_category(name: &str) -> (category: &'static str)
        ensures
            category@ == auto_category_of(name@),
    {
        let upper_text = to_uppercase(name);
        let upper = chars_of(upper_text.as_str());
        if holds(&upper, "PATH") || holds(&upper, "HOME") {
            return "路径相关";
        }
        if holds(&upper, "JAVA") || holds(&upper, "PYTHON") || holds(&upper, "NODE") || holds(&upper, "RUST") {
            return "编程语言";
        }
        if holds(&upper, "GIT") || holds(&upper, "DOCKER") || holds(&upper, "K8S") {
            return "开发工具";
        }
        if holds(&upper, "MYSQL") || holds(&upper, "POSTGRES") || holds(&upper, "MONGO") || holds(&upper, "REDIS") {
            return "数据库";
        }
        if holds(&upper, "APP") || holds(&upper, "CONFIG") {
            return "应用配置";
        }
        if holds(&upper, "TEMP") || holds(&upper, "TMP") || holds(&upper, "CACHE") {
            return "系统配置";
        }
        "其他"
    }

    /// The id of a variable of this name.
    pub fn generate_id(name: &str, is_system: bool) -> (id: String)
        ensures
            id@ == id_of(name@, is_system),
    {
        let prefix = if is_system {
            "sys_"
        } else {
            "user_"
        };
        String::from_str(prefix).concat(name)
    }

    /// The variables of an environment as they are shown: by category and,
    /// within a category, by name. `pairs` holds the names and values as the
    /// environment gives them, `now` the time in milliseconds.
    pub fn get_env_vars(pairs: Vec<(String, String)>, now: i64) -> (vars: Vec<EnvironmentVariable>)
        ensures
            var_views(vars@) == sorted_vars(system_vars(pairs@, now)),
    {
        let ghost all = system_vars(pairs@, now);
        let mut sorted: Vec<EnvironmentVariable> = Vec::new();
        let mut i: usize = 0;
        assert(all.take(0) =~= Seq::<EnvVarView>::empty());
        assert(var_views(sorted@) =~= Seq::<EnvVarView>::empty());
        while i < pairs.len()
            invariant
                i <= pairs.len(),
                all == system_vars(pairs@, now),
                var_views(sorted@) == sorted_vars(all.take(i as int)),
            decreases pairs.len() - i,
        {
            let name = pairs[i].0.clone();
            let value = pairs[i].1.clone();
            let v = EnvironmentVariable {
                id: Self::generate_id(name.as_str(), true),
                category: String::from_str(Self::auto_category(name.as_str())),
                name,
                value,
                description: None,
                is_system: true,
                is_modified: false,
                created_at: now,
                modified_at: now,
            };
            assert(v@ == all[i as int]);
            let mut pos: usize = sorted.len();
            while pos > 0 && !shows_before(&sorted[pos - 1], &v)
                invariant
                    pos <= sorted.len(),
                    forall|k: int| pos <= k < sorted.len() ==> !var_le(#[trigger] var_views(sorted@)[k], v@),
                decreases pos,
            {
                pos = pos - 1;
            }
            proof {
                if pos > 0 {
                    assert(var_views(sorted@)[pos - 1] == sorted[pos - 1]@);
                }
                lemma_insert_var_position(var_views(sorted@), v@, pos as int);
                assert(all.take(i + 1).drop_last() =~= all.take(i as int));
            }
            let ghost before = sorted@;
            sorted.insert(pos, v);
            assert(var_views(sorted@) =~= var_views(before).insert(pos as int, v@));
            i = i + 1;
        }
        assert(all.take(pairs.len() as int) =~= all);
        sorted
    }

    fn color_for(name: &String) -> (color: Option<String>)
        ensures
            opt_text(color) == color_of(name@),
    {
        let name_chars = chars_of(name.as_str());
        let table = Self::get_predefined_categories();
        let ghost texts = table_texts(table@);
        let mut i: usize = 0;
        while i < table.len()
            invariant
                i <= table.len(),
                texts == table_texts(table@),
                texts == predefined_categories(),
                name_chars@ == name@,
                color_of(name@) == color_from(texts, name@, i as int),
            decreases table.len() - i,
        {
            assert(texts[i as int].0 == table[i as int].0@);
            let row_name = chars_of(table[i].0);
            if chars_eq(&row_name, &name_chars) {
                return match table[i].1 {
                    Some(color) => Some(String::from_str(color)),
                    None => None,
                };
            }
            i = i + 1;
        }
        None
    }

    /// The categories of the variables with their counts and colours, the
    /// largest category first; categories of one size keep the order in
    /// which they first occur among the variables.
    pub fn get_env_var_categories(vars: &Vec<EnvironmentVariable>) -> (categories: Vec<EnvVarCategory>)
        ensures
            category_views(categories@) == categories_of(var_views(vars@)),
    {
        let ghost views = var_views(vars@);
        let mut tallies: Vec<(String, usize)> = Vec::new();
        let mut i: usize = 0;
        assert(views.take(0) =~= Seq::<EnvVarView>::empty());
        assert(tally_texts(tallies@) =~= Seq::<(Seq<char>, nat)>::empty());
        while i < vars.len()
            invariant
                i <= vars.len(),
                views == var_views(vars@),
                tally_texts(tallies@) == tally(views.take(i as int)),
                forall|k: int| 0 <= k < tallies.len() ==> (#[trigger] tallies[k]).1 <= i,
            decreases vars.len() - i,
        {
            assert(views.take(i + 1).drop_last() =~= views.take(i as int));
            assert(views.take(i + 1).last() == vars[i as int]@);
            let ghost front = tally_texts(tallies@);
            let mut k: usize = 0;
            let mut found: bool = false;
            while k < tallies.len() && !found
                invariant
                    k <= tallies.len(),
                    front == tally_texts(tallies@),
                    i < vars.len(),
                    found ==> k < tallies.len() && tally_position(front, vars[i as int].category@, 0) == k && front[k as int].0
                        == vars[i as int].category@,
                    !found ==> tally_position(front, vars[i as int].category@, 0) == tally_position(
                        front,
                        vars[i as int].category@,
                        k as int,
                    ),
                decreases tallies.len() - k + (if found { 0int } else { 1int }),
            {
                assert(front[k as int].0 == tallies[k as int].0@);
                if tallies[k].0 == vars[i].category {
                    found = true;
                } else {
                    k = k + 1;
                }
            }
            let ghost old_tallies = tallies@;
            if found {
                let count: usize = tallies[k].1 + 1;
                let name = tallies[k].0.clone();
                tallies.set(k, (name, count));
                assert(front[k as int] == (old_tallies[k as int].0@, old_tallies[k as int].1 as nat));
                assert(tally_texts(tallies@) =~= front.update(k as int, (vars[i as int].category@, front[k as int].1 + 1)));
                assert forall|m: int| 0 <= m < tallies.len() implies (#[trigger] tallies[m]).1 <= i + 1 by {
                    if m != k {
                        assert(tallies[m] == old_tallies[m]);
                    }
                }
            } else {
                tallies.push((vars[i].category.clone(), 1));
                assert(tally_texts(tallies@) =~= front.push((vars[i as int].category@, 1nat)));
                assert forall|m: int| 0 <= m < tallies.len() implies (#[trigger] tallies[m]).1 <= i + 1 by {
                    if m < old_tallies.len() {
                        assert(tallies[m] == old_tallies[m]);
                    }
                }
            }
            i = i + 1;
        }
        assert(views.take(vars.len() as int) =~= views);
        let ghost counted = tally_texts(tallies@);
        let mut sorted: Vec<(String, usize)> = Vec::new();
        let mut j: usize = 0;
        assert(counted.take(0) =~= Seq::<(Seq<char>, nat)>::empty());
        assert(tally_texts(sorted@) =~= Seq::<(Seq<char>, nat)>::empty());
        while j < tallies.len()
            invariant
                j <= tallies.len(),
                counted == tally_texts(tallies@),
                tally_texts(sorted@) == sorted_tallies(counted.take(j as int)),
            decreases tallies.len() - j,
        {
            let t = (tallies[j].0.clone(), tallies[j].1);
            let ghost t_text = (t.0@, t.1 as nat);
            assert(counted[j as int] == t_text);
            let mut pos: usize = sorted.len();
            while pos > 0 && sorted[pos - 1].1 < t.1
                invariant
                    pos <= sorted.len(),
                    forall|m: int| pos <= m < sorted.len() ==> (#[trigger] tally_texts(sorted@)[m]).1 < t.1,
                decreases pos,
            {
                pos = pos - 1;
            }
            proof {
                if pos > 0 {
                    assert(tally_texts(sorted@)[pos - 1] == (sorted[pos - 1].0@, sorted[pos - 1].1 as nat));
                }
                lemma_insert_tally_position(tally_texts(sorted@), t_text, pos as int);
                assert(counted.take(j + 1).drop_last() =~= counted.take(j as int));
            }
            let ghost before = sorted@;
            sorted.insert(pos, t);
            assert(tally_texts(sorted@) =~= tally_texts(before).insert(pos as int, t_text));
            j = j + 1;
        }
        assert(counted.take(tallies.len() as int) =~= counted);
        let mut categories: Vec<EnvVarCategory> = Vec::new();
        let mut m: usize = 0;
        while m < sorted.len()
            invariant
                m <= sorted.len(),
                categories.len() == m,
                forall|n: int|
                    0 <= n < m ==> (#[trigger] categories[n])@ == (EnvVarCategoryView {
                        name: sorted[n].0@,
                        count: shown_count(sorted[n].1 as nat),
                        color: color_of(sorted[n].0@),
                    }),
            decreases sorted.len() - m,
        {
            let count: i32 = if sorted[m].1 > i32::MAX as usize {
                i32::MAX
            } else {
                sorted[m].1 as i32
            };
            let color = Self::color_for(&sorted[m].0);
            categories.push(EnvVarCategory { name: sorted[m].0.clone(), count, color });
            m = m + 1;
        }
        assert(category_views(categories@) =~= categories_of(views)) by {
            assert forall|n: int| 0 <= n < categories.len() implies category_views(categories@)[n] == categories_of(views)[n] by {
                assert(tally_texts(sorted@)[n] == (sorted[n].0@, sorted[n].1 as nat));
            }
        }
        categories
    }

    /// Whether a name can be given to a new variable: it is not empty, begins
    /// with a letter or an underscore, holds only letters, digits and
    /// underscores, and the environment has no variable of this name yet,
    /// which `exists` tells.
    pub fn validate_env_var_name(name: &str, exists: bool) -> (result: ValidateNameResult)
        ensures
            result.valid == (name_error(name@, exists) is None),
            opt_text(result.error) == name_error(name@, exists),
    {
        let chars = chars_of(name);
        if chars.len() == 0 {
            return ValidateNameResult { valid: false, error: Some(String::from_str("环境变量名称不能为空")) };
        }
        if !(is_alphabetic(chars[0]) || chars[0] == '_') {
            return ValidateNameResult {
                valid: false,
                error: Some(String::from_str("环境变量名称必须以字母或下划线开头")),
            };
        }
        let mut i: usize = 0;
        while i < chars.len()
            invariant
                i <= chars.len(),
                chars@ == name@,
                chars.len() > 0,
                may_begin_name(chars[0]),
                forall|k: int| 0 <= k < i ==> may_be_in_name(#[trigger] chars[k]),
            decreases chars.len() - i,
        {
            if !(is_alphanumeric(chars[i]) || chars[i] == '_') {
                assert(!may_be_in_name(name@[i as int]));
                return ValidateNameResult {
                    valid: false,
                    error: Some(String::from_str("环境变量名称只能包含字母、数字和下划线")),
                };
            }
            i = i + 1;
        }
        if exists {
            let text = String::from_str("环境变量 '").concat(name).concat("' 已存在");
            return ValidateNameResult { valid: false, error: Some(text) };
        }
        ValidateNameResult { valid: true, error: None }
    }

    /// The variable that a request creates, where its name can be given to a
    /// new variable; else `InvalidInput` with the reason.
    pub fn create_env_var(req: CreateEnvVarRequest, exists: bool, now: i64) -> (r: Result<EnvironmentVariable, AppError>)
        ensures
            match r {
                Ok(v) => name_error(req.name@, exists) is None && v@ == (EnvVarView {
                    id: id_of(req.name@, false),
                    name: req.name@,
                    value: req.value@,
                    description: opt_text(req.description),
                    category: req.category@,
                    is_system: false,
                    is_modified: false,
                    created_at: now,
                    modified_at: now,
                }),
                Err(e) => e is InvalidInput && name_error(req.name@, exists) == Some(e->InvalidInput_0@),
            },
    {
        let validation = Self::validate_env_var_name(req.name.as_str(), exists);
        if !validation.valid {
            return match validation.error {
                Some(text) => Err(AppError::InvalidInput(text)),
                None => Err(invalid("无效的环境变量名称")),
            };
        }
        Ok(
            EnvironmentVariable {
                id: Self::generate_id(req.name.as_str(), false),
                name: req.name,
                value: req.value,
                description: req.description,
                category: req.category,
                is_system: false,
                is_modified: false,
                created_at: now,
                modified_at: now,
            },
        )
    }

    /// The first variable with this id after an update, or `InvalidInput`
    /// where no variable has the id.
    pub fn update_env_var(vars: &Vec<EnvironmentVariable>, id: String, req: UpdateEnvVarRequest, now: i64) -> (r: Result<
        EnvironmentVariable,
        AppError,
    >)
        ensures
            match r {
                Ok(v) => {
                    let k = var_position(var_views(vars@), id@, 0);
                    k >= 0 && v@ == updated_var(var_views(vars@)[k], req, now)
                },
                Err(e) => {
                    &&& var_position(var_views(vars@), id@, 0) < 0
                    &&& e is InvalidInput
                    &&& e->InvalidInput_0@ == problem_text(DeletionProblem::Unknown)
                },
            },
    {
        let k = match find_var(vars, &id) {
            None => {
                return Err(invalid("环境变量不存在"));
            },
            Some(k) => k,
        };
        let current = &vars[k];
        assert(var_views(vars@)[k as int] == current@);
        let touched = req.value.is_some();
        Ok(
            EnvironmentVariable {
                id: current.id.clone(),
                name: current.name.clone(),
                value: match req.value {
                    Some(value) => value,
                    None => current.value.clone(),
                },
                description: match req.description {
                    Some(description) => Some(description),
                    None => clone_option(&current.description),
                },
                category: match req.category {
                    Some(category) => category,
                    None => current.category.clone(),
                },
                is_system: current.is_system,
                is_modified: touched || current.is_modified,
                created_at: current.created_at,
                modified_at: now,
            },
        )
    }

    /// The name of the variable to remove for this id. Fails with
    /// `InvalidInput` where no variable has the id or the variable belongs
    /// to the system.
    pub fn delete_env_var(vars: &Vec<EnvironmentVariable>, id: String) -> (r: Result<String, AppError>)
        ensures
            ({
                let k = var_position(var_views(vars@), id@, 0);
                match r {
                    Ok(name) => k >= 0 && !var_views(vars@)[k].is_system && name@ == var_views(vars@)[k].name,
                    Err(e) => {
                        &&& e is InvalidInput
                        &&& k < 0 || var_views(vars@)[k].is_system
                        &&& e->InvalidInput_0@ == problem_text(
                            if k < 0 {
                                DeletionProblem::Unknown
                            } else {
                                DeletionProblem::System
                            },
                        )
                    },
                }
            }),
    {
        let k = match find_var(vars, &id) {
            None => {
                return Err(invalid("环境变量不存在"));
            },
            Some(k) => k,
        };
        assert(var_views(vars@)[k as int] == vars[k as int]@);
        if vars[k].is_system {
            return Err(invalid("不能删除系统环境变量"));
        }
        Ok(vars[k].name.clone())
    }

    /// What deleting the variables of these ids comes to, one id after the
    /// other: the names of the variables to remove, and the error at which
    /// the request ends, if it ends early. An id without a variable and a
    /// variable of the system end it with `InvalidInput`.
    pub fn delete_env_vars(vars: &Vec<EnvironmentVariable>, ids: Vec<String>) -> (plan: EnvVarDeletion)
        ensures
            crate::text::texts(plan.removed@) == deletion_of(var_views(vars@), crate::text::texts(ids@)).0,
            match plan.error {
                Some(e) => {
                    &&& deletion_of(var_views(vars@), crate::text::texts(ids@)).1 is Some
                    &&& e is InvalidInput
                    &&& e->InvalidInput_0@ == problem_text(deletion_of(var_views(vars@), crate::text::texts(ids@)).1->0)
                },
                None => deletion_of(var_views(vars@), crate::text::texts(ids@)).1 is None,
            },
    {
        let ghost views = var_views(vars@);
        let ghost id_texts = crate::text::texts(ids@);
        let mut removed: Vec<String> = Vec::new();
        let mut i: usize = 0;
        assert(id_texts.take(0) =~= Seq::<Seq<char>>::empty());
        assert(crate::text::texts(removed@) =~= Seq::<Seq<char>>::empty());
        while i < ids.len()
            invariant
                i <= ids.len(),
                views == var_views(vars@),
                id_texts == crate::text::texts(ids@),
                deletion_of(views, id_texts.take(i as int)) == (crate::text::texts(removed@), None::<DeletionProblem>),
            decreases ids.len() - i,
        {
            assert(id_texts.take(i + 1).drop_last() =~= id_texts.take(i as int));
            assert(id_texts.take(i + 1).last() == ids[i as int]@);
            let ghost so_far = id_texts.take(i + 1);
            match find_live(vars, &removed, &ids[i]) {
                None => {
                    proof {
                        lemma_deletion_stops(views, id_texts, i + 1);
                    }
                    return EnvVarDeletion { removed, error: Some(invalid("环境变量不存在")) };
                },
                Some(k) => {
                    assert(views[k as int] == vars[k as int]@);
                    if vars[k].is_system {
                        proof {
                            lemma_deletion_stops(views, id_texts, i + 1);
                        }
                        return EnvVarDeletion { removed, error: Some(invalid("不能删除系统环境变量")) };
                    }
                    let ghost before = removed@;
                    removed.push(vars[k].name.clone());
                    assert(crate::text::texts(removed@) =~= crate::text::texts(before).push(vars[k as int].name@));
                },
            }
            i = i + 1;
        }
        assert(id_texts.take(ids.len() as int) =~= id_texts);
        EnvVarDeletion { removed, error: None }
    }

    /// The first variable with this id as it is after it was written to the
    /// system, or `InvalidInput` where no variable has the id.
    pub fn sync_env_var(vars: &Vec<EnvironmentVariable>, id: String, now: i64) -> (r: Result<EnvironmentVariable, AppError>)
        ensures
            match r {
                Ok(v) => {
                    let k = var_position(var_views(vars@), id@, 0);
                    k >= 0 && v@ == synced_var(var_views(vars@)[k], now)
                },
                Err(e) => {
                    &&& var_position(var_views(vars@), id@, 0) < 0
                    &&& e is InvalidInput
                    &&& e->InvalidInput_0@ == problem_text(DeletionProblem::Unknown)
                },
            },
    {
        let k = match find_var(vars, &id) {
            None => {
                return Err(invalid("环境变量不存在"));
            },
            Some(k) => k,
        };
        assert(var_views(vars@)[k as int] == vars[k as int]@);
        let mut v = vars[k].clone();
        v.is_modified = false;
        v.modified_at = now;
        Ok(v)
    }

    /// The variables as they are after all were written to the system.
    pub fn sync_all_env_vars(vars: Vec<EnvironmentVariable>, now: i64) -> (synced: Vec<EnvironmentVariable>)
        ensures
            var_views(synced@) == var_views(vars@).map_values(|v: EnvVarView| synced_var(v, now)),
    {
        let mut synced: Vec<EnvironmentVariable> = Vec::new();
        let mut i: usize = 0;
        while i < vars.len()
            invariant
                i <= vars.len(),
                synced.len() == i,
                forall|k: int| 0 <= k < i ==> (#[trigger] synced[k])@ == synced_var(vars[k]@, now),
            decreases vars.len() - i,
        {
            let mut v = vars[i].clone();
            v.is_modified = false;
            v.modified_at = now;
            synced.push(v);
            i = i + 1;
        }
        assert(var_views(synced@) =~= var_views(vars@).map_values(|v: EnvVarView| synced_var(v, now)));
        synced
    }
}

/// Once a request to delete has met a problem, the ids that follow change
/// nothing.
proof fn lemma_deletion_stops(vars: Seq<EnvVarView>, ids: Seq<Seq<char>>, n: int)
    requires
        0 <= n <= ids.len(),
        deletion_of(vars, ids.take(n)).1 is Some,
    ensures
        deletion_of(vars, ids) == deletion_of(vars, ids.take(n)),
    decreases ids.len() - n,
{
    if n < ids.len() {
        assert(ids.take(n + 1).drop_last() =~= ids.take(n));
        lemma_deletion_stops(vars, ids, n + 1);
    } else {
        assert(ids.take(n) =~= ids);
    }
}

} // verus!
