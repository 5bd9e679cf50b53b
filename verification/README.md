# Passkey

An Android phone's fingerprint as a security key on Linux: login, lock screen, `sudo`, polkit
prompts and browser passkeys, over USB or Bluetooth. The password keeps working either way.

`src/` is the library: what the service, the command line and the PAM module decide, verified
with Verus.

| module | what it is about |
| --- | --- |
| `hid`, `uhid` | the virtual security key: packets, channels, one request at a time |
| `cbor` | whether a request needs the user |
| `exchange` | which phones are asked, and whose answer counts |
| `links` | the phones that are connected |
| `wire` | what is said on a link |
| `adb`, `bluetooth` | phones on USB and on Bluetooth |
| `adding` | registering a phone, step by step |
| `pam` | asking for a password and a fingerprint at the same time |
| `pam_config` | the lines in PAM's configuration |
| `registry`, `registry_laws` | the registered credentials and their names |
| `cli`, `environment` | commands, messages, and what a computer has to have |
| `text`, `number`, `bytes`, `unicode` | what the others are made of |

What holds across functions stands as `law_…` proof functions, at the end of each module.

`app/` holds the program around the library: files, sockets, devices, D-Bus, PAM's C
interface. `tests/` runs the library.
