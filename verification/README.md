# samp_vanilla_assets

A media-screen plugin for SA-MP / open.mp servers: it plays video clips and
live streams on in-game object walls, player textdraws and dialog boxes,
and relays their audio to the players who should hear it.

- `src/` is the verified library. It holds the plugin's logic: sampling
  and quantising frames, rendering them as material, textdraw and dialog
  text (material and textdraw texts within the game's size limits, dialog
  bodies and lines within theirs whenever every segment's colour tag has
  room, as `within_dialog_limits` states), playback timing, the paint
  ring of each object screen, who hears a screen's audio, the audio
  relay's path table, the blacklists and the plugin's tables. How the dialog tags are shared out
  between rows is decided in `app/` on floating-point colour errors. Every
  function there carries a contract that Verus proves, except four small
  wrappers around std calls (`String::push`, `sort_unstable`, `Path::join`
  and `Path::extension`), whose contracts are trusted as std documents them.
- `app/` is the plugin around it: the natives registered with the server,
  ffmpeg and yt-dlp processes, the HTTP relay, the settings file and the
  network budget (floating point).
- `tests/` runs the library on concrete inputs.
