use cook_book::auth::CookieName;
use cook_book::cdn::all_listed;
use cook_book::cdn::delete_image_step;
use cook_book::cdn::fs_outcome;
use cook_book::cdn::Cdn;
use cook_book::cdn::CdnError;
use cook_book::cdn::MAX_IMAGE_SIZE;
use cook_book::decimal::u32_to_decimal;
use cook_book::index::MetaIndex;

fn fresh_store() -> Cdn {
    Cdn::new("root/".to_string(), MetaIndex::new())
}

#[test]
fn create_then_counter_starts_at_zero() {
    let mut cdn = fresh_store();
    let low = cdn.create_recipe_prepare("Pasta").unwrap();
    assert_eq!(low, "pasta");
    cdn.create_recipe_commit(low, true).unwrap();
    // the fresh recipe's first image gets sequence number 0
    assert_eq!(cdn.upload_image_begin("pasta").unwrap(), 0);
}

#[test]
fn duplicate_create_is_rejected_case_insensitively() {
    let mut cdn = fresh_store();
    let low = cdn.create_recipe_prepare("Pasta").unwrap();
    cdn.create_recipe_commit(low, true).unwrap();
    assert_eq!(cdn.create_recipe_prepare("PASTA").unwrap_err(), CdnError::AlreadyExists);
    assert_eq!(cdn.create_recipe_prepare("pasta").unwrap_err(), CdnError::AlreadyExists);
    // exactly one index entry was left behind
    let snapshot = cdn.serialize_index();
    let reloaded = Cdn::load_index(&snapshot).unwrap();
    assert_eq!(reloaded.len(), 1);
}

#[test]
fn failed_directory_creation_leaves_no_entry() {
    let mut cdn = fresh_store();
    let low = cdn.create_recipe_prepare("Pasta").unwrap();
    assert_eq!(cdn.create_recipe_commit(low, false).unwrap_err(), CdnError::InternalError);
    // the name is still free
    assert!(cdn.create_recipe_prepare("pasta").is_ok());
}

#[test]
fn delete_of_unknown_recipe_is_refused() {
    let mut cdn = fresh_store();
    assert_eq!(cdn.delete_recipe_prepare("nope").unwrap_err(), CdnError::RecipeDoesntExist);
    assert_eq!(cdn.delete_recipe_commit("nope", true).unwrap_err(), CdnError::RecipeDoesntExist);
}

#[test]
fn delete_removes_entry_and_frees_name() {
    let mut cdn = fresh_store();
    let low = cdn.create_recipe_prepare("Pasta").unwrap();
    cdn.create_recipe_commit(low, true).unwrap();
    cdn.delete_recipe_prepare("pasta").unwrap();
    cdn.delete_recipe_commit("pasta", true).unwrap();
    assert!(cdn.create_recipe_prepare("pasta").is_ok());
    let reloaded = Cdn::load_index(&cdn.serialize_index()).unwrap();
    assert_eq!(reloaded.len(), 0);
}

#[test]
fn sequence_numbers_advance_and_never_recycle() {
    let mut cdn = fresh_store();
    let low = cdn.create_recipe_prepare("Cake").unwrap();
    cdn.create_recipe_commit(low, true).unwrap();
    assert_eq!(cdn.upload_image_begin("cake").unwrap(), 0);
    assert_eq!(cdn.upload_image_begin("cake").unwrap(), 1);
    // deleting stored images touches only the filesystem, not the index,
    // so the next number is still 2
    assert_eq!(delete_image_step(true, true), Ok(()));
    assert_eq!(cdn.upload_image_begin("cake").unwrap(), 2);
}

#[test]
fn upload_to_unknown_recipe_is_refused() {
    let mut cdn = fresh_store();
    assert_eq!(cdn.upload_image_begin("ghost").unwrap_err(), CdnError::RecipeDoesntExist);
    assert_eq!(
        cdn.upload_icon_prepare("ghost", &[0u8; 4]).unwrap_err(),
        CdnError::RecipeDoesntExist
    );
}

#[test]
fn icon_upload_consumes_no_sequence_number() {
    let mut cdn = fresh_store();
    let low = cdn.create_recipe_prepare("Tea").unwrap();
    cdn.create_recipe_commit(low, true).unwrap();
    cdn.upload_icon_prepare("tea", &[0u8; 4]).unwrap();
    assert_eq!(cdn.upload_image_begin("tea").unwrap(), 0);
}

#[test]
fn paths_follow_the_layout() {
    let cdn = fresh_store();
    assert_eq!(cdn.meta_file_path(), "root/meta.cbor");
    assert_eq!(cdn.recipe_dir_path("PaStA"), "root/pasta");
    assert_eq!(cdn.icon_file_path("pasta"), "root/pasta/icon");
    assert_eq!(cdn.image_file_path("pasta", 7), "root/pasta/7");
    assert_eq!(cdn.image_file_path("pasta", 4294967295), "root/pasta/4294967295");
    assert_eq!(cdn.stored_file_path("pasta", "3"), "root/pasta/3");
    // files always live under the lower-cased folder, whatever the caller's casing
    assert_eq!(cdn.icon_file_path("PaStA"), "root/pasta/icon");
    assert_eq!(cdn.image_file_path("PaStA", 7), "root/pasta/7");
    assert_eq!(cdn.stored_file_path("PaStA", "3"), "root/pasta/3");
}

#[test]
fn operations_find_recipes_case_insensitively() {
    let mut cdn = fresh_store();
    let low = cdn.create_recipe_prepare("MyPie").unwrap();
    cdn.create_recipe_commit(low, true).unwrap();
    assert_eq!(cdn.upload_image_begin("MyPie").unwrap(), 0);
    cdn.upload_icon_prepare("MYPIE", &[0u8; 4]).unwrap();
    cdn.delete_recipe_prepare("myPIE").unwrap();
    cdn.delete_recipe_commit("myPIE", true).unwrap();
    assert!(cdn.create_recipe_prepare("mypie").is_ok());
}

#[test]
fn decimal_rendering_matches_format() {
    for n in [0u32, 1, 9, 10, 99, 100, 12345, u32::MAX] {
        assert_eq!(u32_to_decimal(n), format!("{n}"));
    }
}

#[test]
fn error_taxonomy_maps_to_http_statuses() {
    assert_eq!(CdnError::AlreadyExists.http_status(), 409);
    assert_eq!(CdnError::RecipeDoesntExist.http_status(), 404);
    assert_eq!(CdnError::ImageDoesntExist.http_status(), 404);
    assert_eq!(CdnError::UnsupportedImageFormat.http_status(), 501);
    assert_eq!(CdnError::InvalidName.http_status(), 400);
    assert_eq!(CdnError::InternalError.http_status(), 500);
}

#[test]
fn error_messages() {
    assert_eq!(CdnError::AlreadyExists.message(), "Already exists");
    assert_eq!(CdnError::RecipeDoesntExist.message(), "Recipe doesn't exist");
    assert_eq!(CdnError::ImageDoesntExist.message(), "image doesn't exist");
    assert_eq!(CdnError::UnsupportedImageFormat.message(), "Unsupported image format");
    assert_eq!(CdnError::InvalidName.message(), "Invalid name");
    assert_eq!(CdnError::InternalError.message(), "Internal error");
}

#[test]
fn bulk_delete_requires_every_name_listed() {
    let listing = vec!["0".to_string(), "1".to_string(), "icon".to_string()];
    assert!(all_listed(&["0".to_string(), "icon".to_string()], &listing));
    assert!(all_listed(&[], &listing));
    assert!(!all_listed(&["2".to_string()], &listing));
    assert!(!all_listed(&["0".to_string(), "2".to_string()], &listing));
}

#[test]
fn filesystem_outcomes_map_to_errors() {
    assert_eq!(fs_outcome(true), Ok(()));
    assert_eq!(fs_outcome(false), Err(CdnError::InternalError));
    assert_eq!(delete_image_step(false, false), Err(CdnError::ImageDoesntExist));
    assert_eq!(delete_image_step(true, false), Err(CdnError::InternalError));
}

#[test]
fn max_image_size_is_ten_mebibytes() {
    assert_eq!(MAX_IMAGE_SIZE, 10 * 1024 * 1024);
}

#[test]
fn cookie_names() {
    assert_eq!(CookieName::RefreshToken.cookie_name(), "refresh_token");
    assert_eq!(CookieName::AccessToken.cookie_name(), "access_token");
}
