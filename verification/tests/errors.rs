use thorn::error::ThError;

#[test]
fn error_descriptions_name_the_kind() {
    assert_eq!(
        ThError::PluginLoadOrder.describe(),
        "failed to find a suitable plugin load order"
    );
    assert_eq!(
        ThError::LayerCastFailed(String::from("svc")).describe(),
        "failed to cast into the requested layer"
    );
    assert_eq!(
        ThError::PluginLoadFailed(String::from("p"), String::from("cause")).describe(),
        "failed to load plugin"
    );
    assert_eq!(ThError::Error(String::from("x")).describe(), "error");
    assert_eq!(ThError::RendererError(String::from("x")).describe(), "renderer error");
}
