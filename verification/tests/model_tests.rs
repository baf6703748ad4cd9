//! Checks of the application model types around the engine.

use po_mo_catalog::config::{AppConfig, AppTheme, ThemeManager};
use po_mo_catalog::errors::CatalogError;
use po_mo_catalog::models::{
    available_models, get_all_models, get_custom_model_by_id, ConversionStatus, ConversionType,
    CustomModel, ModStatus, ModsTab,
};

#[test]
fn available_models_list() {
    let m = available_models();
    assert_eq!(
        m,
        vec![
            "gpt-3.5-turbo".to_string(),
            "gpt-3.5-turbo-16k".to_string(),
            "gpt-4".to_string(),
            "gpt-4-turbo".to_string(),
            "gpt-4o".to_string(),
        ]
    );
}

fn custom(name: &str, id: &str) -> CustomModel {
    CustomModel {
        name: name.to_string(),
        model_id: id.to_string(),
        description: None,
    }
}

#[test]
fn get_all_models_appends_and_dedups() {
    let customs = vec![custom("mine", "my-model"), custom("dup", "gpt-4")];
    let all = get_all_models(&customs);
    assert_eq!(all.len(), 6);
    assert_eq!(all[5], "my-model");
    assert_eq!(all.iter().filter(|m| m.as_str() == "gpt-4").count(), 1);
}

#[test]
fn get_custom_model_by_id_finds_first_match() {
    let customs = vec![custom("a", "x"), custom("b", "x")];
    let found = get_custom_model_by_id(&customs, "x").expect("found");
    assert_eq!(found.name, "a");
    assert!(get_custom_model_by_id(&customs, "y").is_none());
}

#[test]
fn status_defaults_and_labels() {
    assert_eq!(ConversionStatus::default(), ConversionStatus::Pending);
    assert_eq!(ConversionStatus::Pending.label(), "等待处理");
    assert_eq!(ConversionStatus::Processing.label(), "处理中");
    assert_eq!(ConversionStatus::Completed.label(), "完成");
    assert_eq!(ConversionStatus::Failed.label(), "失败");
    assert_eq!(ModStatus::default(), ModStatus::NotInstalled);
    assert_eq!(ModStatus::Enabled.label(), "已启用");
    assert_eq!(ModStatus::Disabled.label(), "已禁用");
    assert_eq!(ModStatus::NotInstalled.label(), "未安装");
    assert_eq!(ConversionType::MoToPo, ConversionType::MoToPo);
    assert_eq!(ModsTab::Mods, ModsTab::Mods);
}

#[test]
fn app_config_defaults() {
    let c = AppConfig::default();
    assert!(c.main_mo_file.is_none());
    assert!(c.mods_directory.is_none());
    assert!(c.output_directory.is_none());
    assert_eq!(c.theme, AppTheme::Dark);
    assert!(c.dark_mode);
    assert!(!c.auto_batch);
    assert!(!c.auto_close);
    assert!(c.show_logs);
    assert!(c.saved_mods.is_empty());
    assert!(!c.ignore_main_mo_entries);
    assert_eq!(AppTheme::default(), AppTheme::Dark);
}

#[test]
fn theme_names_cover_all_themes() {
    let names = ThemeManager::get_theme_names();
    assert_eq!(names.len(), 5);
    assert_eq!(names[0], ("亮色主题", AppTheme::Light));
    assert_eq!(names[1], ("暗黑主题", AppTheme::Dark));
    assert_eq!(names[2], ("夜间蓝", AppTheme::NightBlue));
    assert_eq!(names[3], ("护眼模式", AppTheme::Sepia));
    assert_eq!(names[4], ("森林绿", AppTheme::Forest));
}

#[test]
fn error_descriptions() {
    assert_eq!(
        CatalogError::Format { line: 3 }.describe(),
        "malformed input"
    );
    assert_eq!(
        CatalogError::EmptyInput.describe(),
        "no usable entries in input"
    );
    assert_eq!(
        CatalogError::Validation { line: 0 }.describe(),
        "re-validation of written output failed"
    );
}
