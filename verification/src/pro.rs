//! Pro-tier gates: which resolutions, formats and analyses the current
//! license unlocks.  The stored license record and the machine identity
//! come from the caller; every decision here is a pure function of them.

use crate::chat::{
    analyze_chat, chat_analysis_ok, msgs_wf, ChatAnalysisResult, ChatAnalyzeSettings, ChatMessage,
};
use crate::license::{pro_active, runtime_license_check, LicenseInfo};
use crate::text::str_eq;
use vstd::prelude::*;

verus! {

/// Whether an output height is available: 720p is free, anything taller
/// needs an active pro license.
pub fn pro_resolution_allowed(height: u32, license: &LicenseInfo, machine_id: &str) -> (r: bool)
    ensures
        r == (height <= 720 || pro_active(*license, machine_id@)),
{
    if height <= 720 {
        return true;
    }
    runtime_license_check(license, machine_id)
}

/// Whether an output container is available: MP4 is free, anything else
/// needs an active pro license.
pub fn pro_format_allowed(fmt: &str, license: &LicenseInfo, machine_id: &str) -> (r: bool)
    ensures
        r == (fmt@ == "mp4"@ || pro_active(*license, machine_id@)),
{
    if str_eq(fmt, "mp4") {
        return true;
    }
    runtime_license_check(license, machine_id)
}

/// Whether the watermark may be skipped: pro only.
pub fn pro_skip_watermark(license: &LicenseInfo, machine_id: &str) -> (r: bool)
    ensures
        r == pro_active(*license, machine_id@),
{
    runtime_license_check(license, machine_id)
}

/// Chat analysis behind the pro gate: the full analysis for an active
/// license, the fixed refusal otherwise.
pub fn pro_analyze_chat(
    messages: &Vec<ChatMessage>,
    settings: &ChatAnalyzeSettings,
    license: &LicenseInfo,
    machine_id: &str,
) -> (r: Result<ChatAnalysisResult, String>)
    requires
        msgs_wf(messages@),
        settings.wf(),
        messages@.len() * settings.keywords@.len() <= 0xFFFF_FFFF,
    ensures
        r is Ok <==> pro_active(*license, machine_id@),
        r matches Ok(res) ==> chat_analysis_ok(messages@, *settings, res),
        r matches Err(e) ==> e@ == "Pro required"@,
{
    if !runtime_license_check(license, machine_id) {
        return Err(String::from_str("Pro required"));
    }
    Ok(analyze_chat(messages, settings))
}

} // verus!
