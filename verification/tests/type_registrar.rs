use kecs::TypeRegistrar;

const TOKEN_I32: u64 = 1;
const TOKEN_F32: u64 = 2;

#[test]
fn tests() {
    let mut registrar = TypeRegistrar::new();

    let id_i32 = registrar.get_registration(TOKEN_I32);
    assert!(id_i32 == registrar.get_registration(TOKEN_I32));

    let id_f32 = registrar.get_registration(TOKEN_F32);
    assert!(id_f32 == registrar.get_registration(TOKEN_F32));
    assert!(id_f32 != id_i32);

    let id_i32_2 = registrar.get(TOKEN_I32);
    assert!(id_i32_2 == id_i32);
    assert!(id_i32_2 != id_f32);
}

#[test]
fn get_maybe_misses_unregistered_tokens() {
    let mut registrar = TypeRegistrar::new();
    assert!(registrar.get_maybe(TOKEN_I32).is_none());
    let id = registrar.get_registration(TOKEN_I32);
    assert_eq!(registrar.get_maybe(TOKEN_I32), Some(id));
}
