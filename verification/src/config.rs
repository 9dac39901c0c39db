//! The parts of the plugin's settings file that the library reads, with
//! the values used when the file leaves them out.

use vstd::prelude::*;

verus! {

/// Where the audio relay listens, where it caches clips and the address
/// players' clients fetch them from.
pub struct AudioConfig {
    pub server_bind: String,
    pub output_dir: String,
    pub base_url: String,
}

impl Default for AudioConfig {
    fn default() -> (config: Self)
        ensures
            config.server_bind@ == "0.0.0.0:7878"@,
            config.output_dir@ == "samp-led/audio_cache"@,
            config.base_url@ == "http://127.0.0.1:7878"@,
    {
        AudioConfig {
            server_bind: "0.0.0.0:7878".to_owned(),
            output_dir: "samp-led/audio_cache".to_owned(),
            base_url: "http://127.0.0.1:7878".to_owned(),
        }
    }
}

/// The custom models of the screen object, the base models they extend and
/// the model files they are loaded from.
pub struct ScreenModelConfig {
    pub standard_model_id: i32,
    pub shadow_model_id: i32,
    pub standard_base_model_id: i32,
    pub shadow_base_model_id: i32,
    pub standard_dff: String,
    pub standard_txd: String,
    pub shadow_dff: String,
    pub shadow_txd: String,
}

impl Default for ScreenModelConfig {
    fn default() -> (config: Self)
        ensures
            config.standard_model_id == -1003,
            config.shadow_model_id == -1004,
            config.standard_base_model_id == 19805,
            config.shadow_base_model_id == 19806,
            config.standard_dff@ == "screen.dff"@,
            config.standard_txd@ == "screen.txd"@,
            config.shadow_dff@ == "screen-shadow.dff"@,
            config.shadow_txd@ == "screen-shadow.txd"@,
    {
        ScreenModelConfig {
            standard_model_id: -1003,
            shadow_model_id: -1004,
            standard_base_model_id: 19805,
            shadow_base_model_id: 19806,
            standard_dff: "screen.dff".to_owned(),
            standard_txd: "screen.txd".to_owned(),
            shadow_dff: "screen-shadow.dff".to_owned(),
            shadow_txd: "screen-shadow.txd".to_owned(),
        }
    }
}

} // verus!
