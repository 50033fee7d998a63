use resource_manager::cards::{stacking_order, widget_label, widget_url, CreateCardPayload, DesktopCard};
use resource_manager::env_var::{
    CreateEnvVarRequest, EnvVarCategory, EnvVarService, EnvironmentVariable, UpdateEnvVarRequest, ValidateNameResult,
};
use resource_manager::error::AppError;
use resource_manager::gpu::detect_vendor;
use resource_manager::models::{FanInfo, NetworkInfo, OsInfo};
use resource_manager::paths::file_extension;
use resource_manager::rename::{decimal_string, renamed_file_name, BatchRenameRequest, BatchRenameResult};
use resource_manager::wallpaper::{
    current_wallpaper, downloaded, empty_page, files_to_import, is_image_extension, is_importable, monitors,
    station_categories, ImportCandidate,
    wallpaper_was_set, CurrentWallpaperInfo, LocalWallpaper, MonitorInfo, SetWallpaperResult, WallpaperStationResponse,
};
use resource_manager::shortcuts::{
    password_matches, website_url, CreateQuickAccessDto, QuickAccessItem, ShortcutState, UpdateQuickAccessDto,
    WebsiteMetadata,
};

fn pair(name: &str, value: &str) -> (String, String) {
    (name.to_string(), value.to_string())
}

fn user_var(name: &str, category: &str) -> EnvironmentVariable {
    EnvironmentVariable {
        id: format!("user_{}", name),
        name: name.to_string(),
        value: "v".to_string(),
        description: None,
        category: category.to_string(),
        is_system: false,
        is_modified: false,
        created_at: 1,
        modified_at: 1,
    }
}

#[test]
fn variables_are_sorted_into_categories_by_their_names() {
    assert_eq!(EnvVarService::auto_category("Path"), "路径相关");
    assert_eq!(EnvVarService::auto_category("JAVA_HOME"), "路径相关");
    assert_eq!(EnvVarService::auto_category("python_version"), "编程语言");
    assert_eq!(EnvVarService::auto_category("GIT_EDITOR"), "开发工具");
    assert_eq!(EnvVarService::auto_category("REDIS_URL"), "数据库");
    assert_eq!(EnvVarService::auto_category("XDG_CONFIG_DIRS"), "应用配置");
    assert_eq!(EnvVarService::auto_category("TMPDIR"), "系统配置");
    assert_eq!(EnvVarService::auto_category("LANG"), "其他");
    assert_eq!(EnvVarService::auto_category(""), "其他");
}

#[test]
fn ids_tell_system_variables_from_the_user_s() {
    assert_eq!(EnvVarService::generate_id("PATH", true), "sys_PATH");
    assert_eq!(EnvVarService::generate_id("PATH", false), "user_PATH");
    assert_eq!(EnvVarService::generate_id("", false), "user_");
}

#[test]
fn the_environment_is_shown_by_category_and_name() {
    let vars = EnvVarService::get_env_vars(vec![pair("ZED", "1"), pair("PATH", "/bin"), pair("HOME", "/root"), pair("LANG", "C")], 42);
    let names: Vec<&str> = vars.iter().map(|v| v.name.as_str()).collect();
    assert_eq!(names, vec!["LANG", "ZED", "HOME", "PATH"]);
    assert_eq!(vars[2].id, "sys_HOME");
    assert_eq!(vars[2].value, "/root");
    assert_eq!(vars[2].category, "路径相关");
    assert_eq!(vars[2].description, None);
    assert!(vars[2].is_system);
    assert!(!vars[2].is_modified);
    assert_eq!((vars[2].created_at, vars[2].modified_at), (42, 42));
    let mut by_std = vars.iter().map(|v| (v.category.clone(), v.name.clone())).collect::<Vec<_>>();
    by_std.sort();
    assert_eq!(by_std, vars.iter().map(|v| (v.category.clone(), v.name.clone())).collect::<Vec<_>>());
}

#[test]
fn categories_are_counted_from_the_largest_down() {
    let vars = vec![
        user_var("A", "其他"),
        user_var("B", "数据库"),
        user_var("C", "mine"),
        user_var("D", "数据库"),
        user_var("E", "mine"),
        user_var("F", "数据库"),
    ];
    let categories = EnvVarService::get_env_var_categories(&vars);
    assert_eq!(
        categories,
        vec![
            EnvVarCategory { name: "数据库".to_string(), count: 3, color: Some("#722ed1".to_string()) },
            EnvVarCategory { name: "mine".to_string(), count: 2, color: None },
            EnvVarCategory { name: "其他".to_string(), count: 1, color: None },
        ]
    );
    assert_eq!(EnvVarService::get_env_var_categories(&vec![]), vec![]);
    let table = EnvVarService::get_predefined_categories();
    assert_eq!(table.len(), 7);
    assert_eq!(table[0], ("路径相关", Some("#1677ff")));
    assert_eq!(table[6], ("其他", None));
}

#[test]
fn names_of_variables_are_validated() {
    let ok = ValidateNameResult { valid: true, error: None };
    assert_eq!(EnvVarService::validate_env_var_name("MY_VAR1", false), ok);
    assert_eq!(EnvVarService::validate_env_var_name("_x", false), ok);
    let error = |name: &str, exists: bool| EnvVarService::validate_env_var_name(name, exists).error.unwrap();
    assert_eq!(error("", false), "环境变量名称不能为空");
    assert_eq!(error("1x", false), "环境变量名称必须以字母或下划线开头");
    assert_eq!(error("a-b", false), "环境变量名称只能包含字母、数字和下划线");
    assert_eq!(error("PATH", true), "环境变量 'PATH' 已存在");
    assert_eq!(error("a b", true), "环境变量名称只能包含字母、数字和下划线");
    assert!(!EnvVarService::validate_env_var_name("", false).valid);
}

#[test]
fn a_variable_is_created_for_a_valid_name_only() {
    let req = |name: &str| CreateEnvVarRequest {
        name: name.to_string(),
        value: "1".to_string(),
        description: Some("d".to_string()),
        category: "mine".to_string(),
    };
    let made = EnvVarService::create_env_var(req("MY_VAR"), false, 9).unwrap();
    assert_eq!(
        made,
        EnvironmentVariable {
            id: "user_MY_VAR".to_string(),
            name: "MY_VAR".to_string(),
            value: "1".to_string(),
            description: Some("d".to_string()),
            category: "mine".to_string(),
            is_system: false,
            is_modified: false,
            created_at: 9,
            modified_at: 9,
        }
    );
    assert_eq!(
        EnvVarService::create_env_var(req("MY_VAR"), true, 9),
        Err(AppError::InvalidInput("环境变量 'MY_VAR' 已存在".to_string()))
    );
    assert_eq!(EnvVarService::create_env_var(req(""), false, 9), Err(AppError::InvalidInput("环境变量名称不能为空".to_string())));
}

#[test]
fn an_update_marks_a_changed_value() {
    let vars = vec![user_var("A", "x"), user_var("B", "y")];
    let req = UpdateEnvVarRequest { value: Some("new".to_string()), description: None, category: Some("z".to_string()) };
    let changed = EnvVarService::update_env_var(&vars, "user_B".to_string(), req, 5).unwrap();
    assert_eq!(changed.value, "new");
    assert_eq!(changed.category, "z");
    assert!(changed.is_modified);
    assert_eq!((changed.created_at, changed.modified_at), (1, 5));
    let req = UpdateEnvVarRequest { value: None, description: Some("d".to_string()), category: None };
    let described = EnvVarService::update_env_var(&vars, "user_A".to_string(), req, 6).unwrap();
    assert_eq!(described.description, Some("d".to_string()));
    assert!(!described.is_modified);
    let req = UpdateEnvVarRequest { value: None, description: None, category: None };
    assert_eq!(
        EnvVarService::update_env_var(&vars, "user_C".to_string(), req, 6),
        Err(AppError::InvalidInput("环境变量不存在".to_string()))
    );
}

#[test]
fn system_variables_are_not_deleted() {
    let system = EnvVarService::get_env_vars(vec![pair("PATH", "/bin")], 1);
    let mut vars = vec![user_var("A", "x"), user_var("B", "y")];
    vars.extend(system);
    assert_eq!(EnvVarService::delete_env_var(&vars, "user_A".to_string()), Ok("A".to_string()));
    assert_eq!(
        EnvVarService::delete_env_var(&vars, "sys_PATH".to_string()),
        Err(AppError::InvalidInput("不能删除系统环境变量".to_string()))
    );
    assert_eq!(
        EnvVarService::delete_env_var(&vars, "user_Z".to_string()),
        Err(AppError::InvalidInput("环境变量不存在".to_string()))
    );
    let ids = |list: &[&str]| list.iter().map(|s| s.to_string()).collect::<Vec<_>>();
    let all = EnvVarService::delete_env_vars(&vars, ids(&["user_B", "user_A"]));
    assert_eq!(all.removed, vec!["B".to_string(), "A".to_string()]);
    assert_eq!(all.error, None);
    let stopped = EnvVarService::delete_env_vars(&vars, ids(&["user_A", "sys_PATH", "user_B"]));
    assert_eq!(stopped.removed, vec!["A".to_string()]);
    assert_eq!(stopped.error, Some(AppError::InvalidInput("不能删除系统环境变量".to_string())));
    let twice = EnvVarService::delete_env_vars(&vars, ids(&["user_A", "user_A"]));
    assert_eq!(twice.removed, vec!["A".to_string()]);
    assert_eq!(twice.error, Some(AppError::InvalidInput("环境变量不存在".to_string())));
    assert_eq!(EnvVarService::delete_env_vars(&vars, vec![]).removed, Vec::<String>::new());
}

#[test]
fn syncing_clears_the_mark() {
    let mut a = user_var("A", "x");
    a.is_modified = true;
    let vars = vec![a, user_var("B", "y")];
    let synced = EnvVarService::sync_env_var(&vars, "user_A".to_string(), 8).unwrap();
    assert!(!synced.is_modified);
    assert_eq!(synced.modified_at, 8);
    assert_eq!(synced.name, "A");
    assert!(EnvVarService::sync_env_var(&vars, "nope".to_string(), 8).is_err());
    let all = EnvVarService::sync_all_env_vars(vars, 9);
    assert_eq!(all.len(), 2);
    assert!(all.iter().all(|v| !v.is_modified && v.modified_at == 9 && v.created_at == 1));
}

#[test]
fn vendors_are_told_by_the_adapter_s_name() {
    assert_eq!(detect_vendor("NVIDIA GeForce RTX 3080"), "NVIDIA");
    assert_eq!(detect_vendor("GeForce gtx 1060"), "NVIDIA");
    assert_eq!(detect_vendor("AMD Radeon RX 6800"), "AMD");
    assert_eq!(detect_vendor("radeon pro"), "AMD");
    assert_eq!(detect_vendor("Intel(R) UHD Graphics"), "Intel");
    assert_eq!(detect_vendor("Microsoft Basic Display Adapter"), "Unknown");
    assert_eq!(detect_vendor(""), "Unknown");
}

#[test]
fn errors_describe_themselves() {
    assert_eq!(AppError::CategoryNotFound.message(), "Category not found");
    assert_eq!(AppError::PathNotFound("/x".to_string()).message(), "Path not found: /x");
    assert_eq!(AppError::InvalidInput("Path is not a directory".to_string()).message(), "Invalid input: Path is not a directory");
    assert_eq!(AppError::Database("locked".to_string()).message(), "Database error: locked");
    assert_eq!(AppError::IoError("eof".to_string()).message(), "IO error: eof");
    assert_eq!(AppError::JsonError("bad".to_string()).message(), "JSON error: bad");
    assert_eq!(AppError::InvalidPath("p".to_string()).message(), "Invalid path: p");
    assert_eq!(AppError::InvalidPassword.message(), "Invalid password");
    assert_eq!(AppError::PermissionDenied("p".to_string()).message(), "Permission denied: p");
    assert_eq!(AppError::Internal("i".to_string()).message(), "Internal error: i");
    assert_eq!(AppError::Gpu("g".to_string()).message(), "GPU error: g");
    assert_eq!(AppError::NvmlUnavailable.message(), "NVML not available or failed to initialize");
    assert_eq!(AppError::WmiQuery("w".to_string()).message(), "WMI query failed: w");
    assert_eq!(AppError::SystemError("s".to_string()).message(), "System error: s");
    assert_eq!(AppError::invalid_input("x"), AppError::InvalidInput("x".to_string()));
    assert_eq!(AppError::store("x"), AppError::Database("x".to_string()));
}

#[test]
fn shortcuts_are_made_and_changed() {
    let _state = ShortcutState::new();
    let dto = CreateQuickAccessDto {
        name: "docs".to_string(),
        target: "/docs".to_string(),
        kind: "directory".to_string(),
        description: None,
        icon: Some("i".to_string()),
        encrypted: false,
        hidden: true,
    };
    let item = QuickAccessItem::create("id-1".to_string(), dto, 10);
    assert_eq!(item.id, "id-1");
    assert_eq!((item.created_at, item.updated_at), (10, 10));
    assert!(item.hidden);
    assert!(!item.is_website());
    let dto = UpdateQuickAccessDto {
        name: Some("site".to_string()),
        target: None,
        description: Some("d".to_string()),
        icon: None,
        encrypted: Some(true),
        hidden: Some(false),
    };
    let changed = item.update(dto, 20);
    assert_eq!(changed.name, "site");
    assert_eq!(changed.target, "/docs");
    assert_eq!(changed.description, Some("d".to_string()));
    assert_eq!(changed.icon, Some("i".to_string()));
    assert!(changed.encrypted);
    assert!(!changed.hidden);
    assert_eq!((changed.created_at, changed.updated_at), (10, 20));
}

#[test]
fn addresses_and_passwords() {
    assert_eq!(website_url("example.com"), "https://example.com");
    assert_eq!(website_url("http://example.com"), "http://example.com");
    assert_eq!(website_url("https://example.com"), "https://example.com");
    assert_eq!(website_url("httpx"), "https://httpx");
    assert_eq!(website_url(""), "https://");
    assert!(password_matches(&Some("s3".to_string()), &"s3".to_string()));
    assert!(!password_matches(&Some("s3".to_string()), &"s4".to_string()));
    assert!(!password_matches(&None, &"".to_string()));
}

#[test]
fn renamed_files_are_numbered() {
    assert_eq!(decimal_string(0), "0");
    assert_eq!(decimal_string(7), "7");
    assert_eq!(decimal_string(10), "10");
    assert_eq!(decimal_string(1234567890), "1234567890");
    assert_eq!(decimal_string(usize::MAX), usize::MAX.to_string());
    assert_eq!(renamed_file_name("trip", 1, "IMG_0001.JPG"), "trip1.JPG");
    assert_eq!(renamed_file_name("trip", 12, "notes"), "trip12");
    assert_eq!(renamed_file_name("trip", 3, ".hidden"), "trip3");
    assert_eq!(renamed_file_name("trip", 3, "a."), "trip3");
    assert_eq!(renamed_file_name("", 4, "a.tar.gz"), "4.gz");
    let request = BatchRenameRequest { file_paths: vec!["/a/x.png".to_string()], new_name: "pic".to_string() };
    let result = BatchRenameResult { success: vec!["/a/pic1.png".to_string()], failed: vec![] };
    assert_eq!(request.file_paths.len(), result.success.len());
}

#[test]
fn pictures_are_told_by_their_extension() {
    for ext in ["png", "JPG", "Jpeg", "gif", "bmp", "WEBP", "svg"] {
        assert!(is_image_extension(ext));
    }
    for ext in ["", "txt", "pngx", "jp"] {
        assert!(!is_image_extension(ext));
    }
    assert!(is_importable("a.PNG", true));
    assert!(!is_importable("a.txt", false));
    assert!(is_importable("picture", false));
    assert!(!is_importable("picture", true));
    assert_eq!(file_extension("a.PNG"), Some("PNG".to_string()));
    assert_eq!(file_extension("picture"), None);
    let w = LocalWallpaper::imported("id".to_string(), "/w/a.PNG".to_string(), "a.PNG".to_string(), 9, "now".to_string());
    assert_eq!(
        w,
        LocalWallpaper {
            id: "id".to_string(),
            name: "a.PNG".to_string(),
            file_path: "/w/a.PNG".to_string(),
            file_name: "a.PNG".to_string(),
            file_type: "PNG".to_string(),
            file_size: 9,
            width: None,
            height: None,
            modified_at: "now".to_string(),
            created_at: "now".to_string(),
        }
    );
    let plain = LocalWallpaper::imported("id".to_string(), "/w/p".to_string(), "p".to_string(), 0, "now".to_string());
    assert_eq!(plain.file_type, "unknown");
}

#[test]
fn the_station_has_its_fixed_catalogue() {
    let categories = station_categories();
    let shown: Vec<(&str, &str, Option<i32>)> = categories.iter().map(|c| (c.id.as_str(), c.name.as_str(), c.count)).collect();
    assert_eq!(
        shown,
        vec![
            ("all", "全部", None),
            ("hot", "热门", Some(100)),
            ("new", "最新", Some(50)),
            ("scenery", "风景", Some(200)),
            ("anime", "动漫", Some(150)),
            ("abstract", "抽象", Some(80)),
        ]
    );
    assert!(categories.iter().all(|c| c.icon.is_none() && c.color.is_none()));
    assert_eq!(empty_page(3, 20), WallpaperStationResponse { wallpapers: vec![], total: 0, page: 3, page_size: 20, has_more: false });
    let w = downloaded("w1".to_string(), "now".to_string());
    assert_eq!((w.id.as_str(), w.name.as_str(), w.file_path.as_str(), w.file_name.as_str()), ("w1", "下载的壁纸", "", "wallpaper.png"));
    assert_eq!((w.file_type.as_str(), w.file_size, w.width, w.height), ("png", 0, None, None));
    assert_eq!((w.modified_at.as_str(), w.created_at.as_str()), ("now", "now"));
    assert_eq!(
        wallpaper_was_set(),
        SetWallpaperResult { success: true, message: Some("壁纸设置成功".to_string()), error_code: None }
    );
    assert_eq!(
        monitors(),
        vec![MonitorInfo { id: "primary".to_string(), name: "主显示器".to_string(), width: 1920, height: 1080 }]
    );
    assert_eq!(
        current_wallpaper("/w/a.png".to_string()),
        CurrentWallpaperInfo { file_path: "/w/a.png".to_string(), fit_mode: "fill".to_string() }
    );
}

#[test]
fn cards_start_visible_and_lowest() {
    let payload = CreateCardPayload {
        card_type: "clock".to_string(),
        title: Some("Clock".to_string()),
        config: "{}".to_string(),
        position_x: 10,
        position_y: 20,
        width: 300,
        height: 200,
    };
    let card = DesktopCard::create("c1".to_string(), payload, "now".to_string());
    assert_eq!(
        card,
        DesktopCard {
            id: "c1".to_string(),
            card_type: "clock".to_string(),
            title: Some("Clock".to_string()),
            config: "{}".to_string(),
            position_x: 10,
            position_y: 20,
            width: 300,
            height: 200,
            z_index: 0,
            is_visible: true,
            created_at: "now".to_string(),
            updated_at: "now".to_string(),
        }
    );
    assert_eq!(widget_label("c1"), "widget_c1");
    assert_eq!(widget_url("c1"), "index.html#/widget/c1");
    assert_eq!(
        stacking_order(vec!["b".to_string(), "a".to_string(), "c".to_string()]),
        vec![("b".to_string(), 0), ("a".to_string(), 1), ("c".to_string(), 2)]
    );
    assert_eq!(stacking_order(vec![]), vec![]);
}

#[test]
fn the_icon_of_a_page_is_resolved_where_it_has_to_be() {
    let some = |s: &str| Some(s.to_string());
    let icon = |named: Option<String>, resolved: Option<String>, fallback: Option<String>| {
        WebsiteMetadata::new(some("t"), None, named, resolved, fallback).icon
    };
    assert_eq!(icon(some("https://cdn/x.ico"), some("https://site/other"), some("https://site/favicon.ico")), some("https://cdn/x.ico"));
    assert_eq!(icon(some("/x.ico"), some("https://site/x.ico"), some("https://site/favicon.ico")), some("https://site/x.ico"));
    assert_eq!(icon(some("/x.ico"), None, some("https://site/favicon.ico")), some("/x.ico"));
    assert_eq!(icon(None, None, some("https://site/favicon.ico")), some("https://site/favicon.ico"));
    assert_eq!(icon(None, some("ignored"), None), None);
    assert!(WebsiteMetadata::needs_resolving("/x.ico"));
    assert!(!WebsiteMetadata::needs_resolving("http://a/x.ico"));
    let page = WebsiteMetadata::new(some("t"), some("d"), None, None, None);
    assert_eq!(page, WebsiteMetadata { title: some("t"), description: some("d"), icon: None });
}

#[test]
fn files_are_chosen_for_import_once() {
    let candidate = |path: &str, file_name: &str, is_file: bool| ImportCandidate {
        path: path.to_string(),
        file_name: file_name.to_string(),
        is_file,
    };
    let candidates = vec![
        candidate("/w/a.png", "a.png", true),
        candidate("/w/dir.png", "dir.png", false),
        candidate("/w/old.jpg", "old.jpg", true),
        candidate("/w/notes.txt", "notes.txt", true),
        candidate("/w/a.png", "a.png", true),
        candidate("/w/plain", "plain", true),
        candidate("/w/B.JPEG", "B.JPEG", true),
    ];
    let stored = vec!["/w/old.jpg".to_string()];
    assert_eq!(files_to_import(&candidates, &stored, false), vec![0, 5, 6]);
    assert_eq!(files_to_import(&candidates, &stored, true), vec![0, 6]);
    assert_eq!(files_to_import(&candidates, &vec![], true), vec![0, 2, 6]);
    assert_eq!(files_to_import(&vec![], &stored, true), Vec::<usize>::new());
}

#[test]
fn the_records_of_the_machine_hold_what_they_are_given() {
    let net = NetworkInfo {
        name: "eth0".to_string(),
        received: 1,
        transmitted: 2,
        total_received: 3,
        total_transmitted: 4,
        mac_address: "00:00:00:00:00:00".to_string(),
    };
    assert_eq!(net.total_received + net.total_transmitted, 7);
    let fan = FanInfo { label: "cpu".to_string(), rpm: 900 };
    assert_eq!(fan.rpm, 900);
    let os = OsInfo {
        name: "Linux".to_string(),
        version: "6".to_string(),
        kernel_version: "6.1".to_string(),
        long_version: None,
        arch: "x86_64".to_string(),
    };
    assert_eq!(os.long_version, None);
}
